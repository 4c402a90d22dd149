use jmt::hash::{hash_internal, hash_leaf, hash_value, KeyHash, SPARSE_MERKLE_PLACEHOLDER_HASH};
use jmt::mock::MockTreeStore;
use jmt::types::nibble::nibble_path::NibblePath;
use jmt::node_type::{Node, NodeKey};
use jmt::types::PRE_GENESIS_VERSION;
use jmt::proofs::{ExclusionProof, RootHash};
use jmt::storage::{HasPreimage, JmtError, TreeReader, TreeWriter};
use jmt::tree::JellyfishMerkleTree;

fn put(db: &mut MockTreeStore, kvs: Vec<(KeyHash, Option<Vec<u8>>)>, version: u64) -> RootHash {
    let (root, batch) = JellyfishMerkleTree::new(&*db)
        .put_value_set(kvs, version)
        .unwrap();
    db.write_tree_update_batch(batch).unwrap();
    root
}

fn key_with_first_byte(b: u8) -> KeyHash {
    let mut k = [0u8; 32];
    k[0] = b;
    KeyHash(k)
}

#[test]
fn test_empty_then_insert() {
    let mut db = MockTreeStore::default();
    let key = KeyHash::from(b"a".as_slice());
    let (root, batch) = JellyfishMerkleTree::new(&db)
        .put_value_set(vec![(key, Some(b"v1".to_vec()))], 0)
        .unwrap();
    // The root is the leaf itself.
    assert_eq!(root.0, hash_leaf(&key.0, &hash_value(b"v1")));
    assert_eq!(batch.node_batch.nodes().len(), 1);
    assert_eq!(batch.node_batch.nodes()[0].0, NodeKey::new_empty_path(0));
    assert_eq!(batch.node_batch.nodes()[0].1, Node::new_leaf(key, b"v1".to_vec()));
    assert_eq!(batch.stale_node_index_batch.len(), 0);
    db.write_tree_update_batch(batch).unwrap();
    let tree = JellyfishMerkleTree::new(&db);
    assert_eq!(tree.get(key, 0).unwrap(), Some(b"v1".to_vec()));
    assert_eq!(tree.get_root_hash(0).unwrap(), root);
    let (value, proof) = tree.get_with_proof(key, 0).unwrap();
    assert_eq!(value, Some(b"v1".to_vec()));
    assert_eq!(proof.siblings().len(), 0);
    assert_eq!(proof.root_hash(), root);
    assert!(proof.verify_existence(root, key, b"v1"));
    assert!(!proof.verify_existence(root, key, b"v2"));
}

#[test]
fn test_sibling_split() {
    let mut db = MockTreeStore::default();
    let low = KeyHash([0u8; 32]);
    let high = key_with_first_byte(0x80);
    let root = put(
        &mut db,
        vec![(low, Some(b"x".to_vec())), (high, Some(b"y".to_vec()))],
        0,
    );
    let low_hash = hash_leaf(&low.0, &hash_value(b"x"));
    let high_hash = hash_leaf(&high.0, &hash_value(b"y"));
    assert_eq!(root.0, hash_internal(&low_hash, &high_hash));
    match db.get_node_option(&NodeKey::new_empty_path(0)).unwrap() {
        Some(Node::Internal(node)) => {
            for slot in 0..16u8 {
                let child = node.child(slot);
                if slot == 0 {
                    let c = child.unwrap();
                    assert_eq!((c.hash, c.version, c.is_leaf, c.leaf_count), (low_hash, 0, true, 1));
                } else if slot == 8 {
                    let c = child.unwrap();
                    assert_eq!((c.hash, c.version, c.is_leaf, c.leaf_count), (high_hash, 0, true, 1));
                } else {
                    assert!(child.is_none());
                }
            }
            assert_eq!(node.num_children(), 2);
            assert_eq!(node.leaf_count(), 2);
        }
        other => panic!("the root is {:?}", other),
    }
    let tree = JellyfishMerkleTree::new(&db);
    let (value, proof) = tree.get_with_proof(low, 0).unwrap();
    assert_eq!(value, Some(b"x".to_vec()));
    assert_eq!(proof.siblings(), &vec![high_hash]);
    assert_ne!(proof.siblings()[0], SPARSE_MERKLE_PLACEHOLDER_HASH);
    assert_eq!(proof.root_hash(), root);
    let (value, proof) = tree.get_with_proof(high, 0).unwrap();
    assert_eq!(value, Some(b"y".to_vec()));
    assert_eq!(proof.siblings(), &vec![low_hash]);
    assert_eq!(proof.root_hash(), root);
}

#[test]
fn test_put_get_round_trip_over_versions() {
    let mut db = MockTreeStore::default();
    let keys: Vec<KeyHash> = (0..40u32)
        .map(|i| KeyHash::from(format!("k{}", i).as_bytes()))
        .collect();
    // Version 0 puts the even keys.
    let kvs = keys
        .iter()
        .enumerate()
        .filter(|(i, _)| i % 2 == 0)
        .map(|(i, k)| (*k, Some(vec![i as u8])))
        .collect();
    put(&mut db, kvs, 0);
    // Version 1 puts the odd keys, changes key 0 and removes key 2 and a
    // key that is not there.
    let mut kvs: Vec<(KeyHash, Option<Vec<u8>>)> = keys
        .iter()
        .enumerate()
        .filter(|(i, _)| i % 2 == 1)
        .map(|(i, k)| (*k, Some(vec![i as u8])))
        .collect();
    kvs.push((keys[0], Some(b"changed".to_vec())));
    kvs.push((keys[2], None));
    kvs.push((KeyHash::from(b"absent".as_slice()), None));
    put(&mut db, kvs, 1);
    // The roots record the number of keys: 20 at version 0, 39 at version 1.
    assert_eq!(
        db.get_node_option(&NodeKey::new_empty_path(0)).unwrap().unwrap().leaf_count(),
        20
    );
    assert_eq!(
        db.get_node_option(&NodeKey::new_empty_path(1)).unwrap().unwrap().leaf_count(),
        39
    );
    let tree = JellyfishMerkleTree::new(&db);
    for (i, k) in keys.iter().enumerate() {
        let at0 = tree.get(*k, 0).unwrap();
        let at1 = tree.get(*k, 1).unwrap();
        if i % 2 == 0 {
            assert_eq!(at0, Some(vec![i as u8]));
        } else {
            assert_eq!(at0, None);
        }
        if i == 0 {
            assert_eq!(at1, Some(b"changed".to_vec()));
        } else if i == 2 {
            assert_eq!(at1, None);
        } else {
            assert_eq!(at1, Some(vec![i as u8]));
        }
    }
    assert_eq!(tree.get(KeyHash::from(b"absent".as_slice()), 1).unwrap(), None);
}

#[test]
fn test_last_entry_of_a_key_wins() {
    let mut db = MockTreeStore::default();
    let k = KeyHash::from(b"k".as_slice());
    let other = KeyHash::from(b"other".as_slice());
    put(
        &mut db,
        vec![
            (k, Some(b"first".to_vec())),
            (other, Some(b"o".to_vec())),
            (k, None),
            (k, Some(b"last".to_vec())),
            (other, None),
        ],
        0,
    );
    let tree = JellyfishMerkleTree::new(&db);
    assert_eq!(tree.get(k, 0).unwrap(), Some(b"last".to_vec()));
    assert_eq!(tree.get(other, 0).unwrap(), None);
    // The tree is the single leaf.
    assert_eq!(
        tree.get_root_hash(0).unwrap().0,
        hash_leaf(&k.0, &hash_value(b"last"))
    );
}

#[test]
fn test_root_is_the_same_for_the_same_content() {
    // One batch, or the same entries spread over versions in another
    // order: the hash of the root depends on the content only.
    let entries: Vec<(KeyHash, Vec<u8>)> = (0..50u32)
        .map(|i| (KeyHash::from(format!("det{}", i).as_bytes()), vec![i as u8; 3]))
        .collect();
    let mut one = MockTreeStore::default();
    let root_one = put(
        &mut one,
        entries.iter().map(|(k, v)| (*k, Some(v.clone()))).collect(),
        0,
    );
    let mut two = MockTreeStore::default();
    let root_two = put(
        &mut two,
        entries.iter().map(|(k, v)| (*k, Some(v.clone()))).collect(),
        0,
    );
    assert_eq!(root_one, root_two);
    let mut steps = MockTreeStore::default();
    let mut root_steps = RootHash(SPARSE_MERKLE_PLACEHOLDER_HASH);
    for (version, (k, v)) in entries.iter().rev().enumerate() {
        root_steps = put(&mut steps, vec![(*k, Some(v.clone()))], version as u64);
    }
    assert_eq!(root_steps, root_one);
    // Putting a key and removing it again gives the old root back.
    let extra = KeyHash::from(b"extra".as_slice());
    let with_extra = put(&mut one, vec![(extra, Some(b"e".to_vec()))], 1);
    assert_ne!(with_extra, root_one);
    let removed = put(&mut one, vec![(extra, None)], 2);
    assert_eq!(removed, root_one);
}

#[test]
fn test_delete_everything_gives_the_empty_tree() {
    let mut db = MockTreeStore::default();
    let a = KeyHash::from(b"a".as_slice());
    let b = KeyHash::from(b"b".as_slice());
    put(&mut db, vec![(a, Some(vec![1])), (b, Some(vec![2]))], 0);
    let root = put(&mut db, vec![(a, None), (b, None)], 1);
    assert_eq!(root.0, SPARSE_MERKLE_PLACEHOLDER_HASH);
    assert_eq!(
        db.get_node_option(&NodeKey::new_empty_path(1)).unwrap(),
        Some(Node::new_null())
    );
    let tree = JellyfishMerkleTree::new(&db);
    assert_eq!(tree.get(a, 1).unwrap(), None);
    assert_eq!(tree.get(a, 0).unwrap(), Some(vec![1]));
    assert_eq!(
        tree.get_with_exclusion_proof(a, 1),
        Err(JmtError::InvalidOperation)
    );
}

#[test]
fn test_empty_batch_copies_the_root() {
    let mut db = MockTreeStore::default();
    let a = KeyHash::from(b"a".as_slice());
    let b = KeyHash::from(b"b".as_slice());
    let root0 = put(&mut db, vec![(a, Some(vec![1])), (b, Some(vec![2]))], 0);
    let root1 = put(&mut db, vec![], 1);
    assert_eq!(root0, root1);
    let tree = JellyfishMerkleTree::new(&db);
    assert_eq!(tree.get(a, 1).unwrap(), Some(vec![1]));
    assert_eq!(tree.get(b, 1).unwrap(), Some(vec![2]));
}

#[test]
fn test_no_inner_node_with_a_single_leaf() {
    // Two keys that share fifteen nibbles make a chain of inner nodes;
    // removing one of them brings the other up to the root.
    let mut db = MockTreeStore::default();
    let mut one = [0x11u8; 32];
    let mut two = [0x11u8; 32];
    one[7] = 0x12;
    two[7] = 0x13;
    let one = KeyHash(one);
    let two = KeyHash(two);
    put(&mut db, vec![(one, Some(vec![1])), (two, Some(vec![2]))], 0);
    let tree = JellyfishMerkleTree::new(&db);
    let (_, proof) = tree.get_with_proof(one, 0).unwrap();
    // Fifteen nibbles of placeholders, then the other leaf in the last bit.
    assert_eq!(proof.siblings().len(), 64);
    assert_eq!(proof.siblings()[0], hash_leaf(&two.0, &hash_value(&[2])));
    for s in proof.siblings().iter().skip(1) {
        assert_eq!(*s, SPARSE_MERKLE_PLACEHOLDER_HASH);
    }
    let root = put(&mut db, vec![(two, None)], 1);
    assert_eq!(root.0, hash_leaf(&one.0, &hash_value(&[1])));
    assert_eq!(
        db.get_node_option(&NodeKey::new_empty_path(1)).unwrap(),
        Some(Node::new_leaf(one, vec![1]))
    );
}

#[test]
fn test_proofs_of_absent_keys() {
    let mut db = MockTreeStore::default();
    let low = KeyHash([0u8; 32]);
    let high = key_with_first_byte(0x80);
    let root = put(
        &mut db,
        vec![(low, Some(b"x".to_vec())), (high, Some(b"y".to_vec()))],
        0,
    );
    let tree = JellyfishMerkleTree::new(&db);
    // The way ends at another leaf.
    let near_low = key_with_first_byte(0x01);
    let (value, proof) = tree.get_with_proof(near_low, 0).unwrap();
    assert_eq!(value, None);
    assert_eq!(proof.leaf().unwrap().key_hash(), low);
    assert!(proof.verify_nonexistence(root, near_low));
    assert!(!proof.verify_nonexistence(root, low));
    assert!(!proof.verify_existence(root, near_low, b"x"));
    // In between the two leaves.
    match tree.get_with_exclusion_proof(near_low, 0).unwrap() {
        Err(ExclusionProof::Middle {
            leftmost_right_proof,
            rightmost_left_proof,
        }) => {
            assert_eq!(rightmost_left_proof.leaf().unwrap().key_hash(), low);
            assert_eq!(leftmost_right_proof.leaf().unwrap().key_hash(), high);
            assert_eq!(rightmost_left_proof.root_hash(), root);
            assert_eq!(leftmost_right_proof.root_hash(), root);
        }
        other => panic!("{:?}", other),
    }
    // Above both.
    match tree
        .get_with_exclusion_proof(key_with_first_byte(0xff), 0)
        .unwrap()
    {
        Err(ExclusionProof::Rightmost {
            rightmost_left_proof,
        }) => {
            assert_eq!(rightmost_left_proof.leaf().unwrap().key_hash(), high);
        }
        other => panic!("{:?}", other),
    }
    // The key itself.
    match tree.get_with_exclusion_proof(high, 0).unwrap() {
        Ok((value, proof)) => {
            assert_eq!(value, b"y".to_vec());
            assert_eq!(proof.root_hash(), root);
        }
        other => panic!("{:?}", other),
    }
}

#[test]
fn test_leftmost_exclusion() {
    let mut db = MockTreeStore::default();
    let a = key_with_first_byte(0x40);
    let b = key_with_first_byte(0x41);
    let c = key_with_first_byte(0xc0);
    put(
        &mut db,
        vec![(a, Some(vec![1])), (b, Some(vec![2])), (c, Some(vec![3]))],
        0,
    );
    let tree = JellyfishMerkleTree::new(&db);
    match tree
        .get_with_exclusion_proof(key_with_first_byte(0x10), 0)
        .unwrap()
    {
        Err(ExclusionProof::Leftmost {
            leftmost_right_proof,
        }) => {
            assert_eq!(leftmost_right_proof.leaf().unwrap().key_hash(), a);
        }
        other => panic!("{:?}", other),
    }
    match tree
        .get_with_exclusion_proof(key_with_first_byte(0x42), 0)
        .unwrap()
    {
        Err(ExclusionProof::Middle {
            leftmost_right_proof,
            rightmost_left_proof,
        }) => {
            assert_eq!(rightmost_left_proof.leaf().unwrap().key_hash(), b);
            assert_eq!(leftmost_right_proof.leaf().unwrap().key_hash(), c);
        }
        other => panic!("{:?}", other),
    }
}

#[test]
fn test_missing_version_is_a_missing_node() {
    let mut db = MockTreeStore::default();
    put(&mut db, vec![(KeyHash([1; 32]), Some(vec![1]))], 0);
    let tree = JellyfishMerkleTree::new(&db);
    assert_eq!(
        tree.get(KeyHash([1; 32]), 3),
        Err(JmtError::MissingNode(NodeKey::new_empty_path(3)))
    );
    assert_eq!(
        tree.get_root_hash(3),
        Err(JmtError::MissingNode(NodeKey::new_empty_path(3)))
    );
    // A batch needs the root of the version before it.
    assert_eq!(
        tree.put_value_set(vec![], 5).map(|_| ()),
        Err(JmtError::MissingNode(NodeKey::new_empty_path(4)))
    );
}

#[test]
fn test_batch_starts_from_pre_genesis() {
    let mut db = MockTreeStore::default();
    let seed = KeyHash::from(b"seed".as_slice());
    db.put_node(
        NodeKey::new_empty_path(PRE_GENESIS_VERSION),
        Node::new_leaf(seed, b"s".to_vec()),
    )
    .unwrap();
    let other = KeyHash::from(b"other".as_slice());
    let (_, batch) = JellyfishMerkleTree::new(&db)
        .put_value_set(vec![(other, Some(b"o".to_vec()))], 0)
        .unwrap();
    // The old root went stale at version 0.
    assert_eq!(batch.stale_node_index_batch.len(), 1);
    let mark = &batch.stale_node_index_batch.entries()[0];
    assert_eq!(mark.stale_since_version, 0);
    assert_eq!(mark.node_key, NodeKey::new_empty_path(PRE_GENESIS_VERSION));
    db.write_tree_update_batch(batch).unwrap();
    let tree = JellyfishMerkleTree::new(&db);
    assert_eq!(tree.get(seed, 0).unwrap(), Some(b"s".to_vec()));
    assert_eq!(tree.get(other, 0).unwrap(), Some(b"o".to_vec()));
}

#[test]
fn test_stale_marks_account_for_replaced_nodes() {
    // Every node written is in the tree of the last version or marked
    // stale, and not both.
    let mut db = MockTreeStore::default();
    let mut written = 0;
    let mut stale = 0;
    for version in 0..30u64 {
        let mut kvs = vec![(
            KeyHash::from(format!("acc{}", version).as_bytes()),
            Some(vec![version as u8]),
        )];
        if version % 3 == 2 {
            kvs.push((KeyHash::from(format!("acc{}", version - 1).as_bytes()), None));
        }
        let (_, batch) = JellyfishMerkleTree::new(&db)
            .put_value_set(kvs, version)
            .unwrap();
        written += batch.node_batch.nodes().len();
        stale += batch.stale_node_index_batch.len();
        db.write_tree_update_batch(batch).unwrap();
    }
    fn count(db: &MockTreeStore, key: &NodeKey) -> usize {
        match db.get_node_option(key).unwrap().unwrap() {
            Node::Internal(node) => {
                let mut n = 1;
                for slot in 0..16u8 {
                    if let Some(c) = node.child(slot) {
                        n += count(db, &key.gen_child_node_key(c.version, slot));
                    }
                }
                n
            }
            _ => 1,
        }
    }
    let live = count(&db, &NodeKey::new_empty_path(29));
    assert_eq!(written - stale, live);
}

#[test]
fn test_mock_store() {
    let mut db = MockTreeStore::default();
    assert_eq!(db.get_rightmost_leaf().unwrap(), None);
    let small = KeyHash([1; 32]);
    let big = KeyHash([9; 32]);
    let small_key = NodeKey::new(0, NibblePath::new(small.0.to_vec()));
    let big_key = NodeKey::new(1, NibblePath::new(big.0.to_vec()));
    db.put_node(big_key.clone(), Node::new_leaf(big, vec![9])).unwrap();
    db.put_node(small_key.clone(), Node::new_leaf(small, vec![1])).unwrap();
    assert_eq!(
        db.put_node(small_key.clone(), Node::new_null()),
        Err(JmtError::InvalidOperation)
    );
    let (key, leaf) = db.get_rightmost_leaf().unwrap().unwrap();
    assert_eq!(key, big_key);
    assert_eq!(leaf.key_hash(), big);
    assert_eq!(leaf.value(), &vec![9]);
    assert_eq!(db.preimage(KeyHash::from(b"p".as_slice())).unwrap(), None);
    db.put_key_preimage(&b"p".to_vec());
    assert_eq!(
        db.preimage(KeyHash::from(b"p".as_slice())).unwrap(),
        Some(b"p".to_vec())
    );
}

#[test]
fn test_proofs_are_as_short_as_they_can_be() {
    // The deepest hash of a proof stands for a subtree that is not empty.
    let mut db = MockTreeStore::default();
    let keys: Vec<KeyHash> = (0..300u32)
        .map(|i| KeyHash::from(format!("short{}", i).as_bytes()))
        .collect();
    let root = put(
        &mut db,
        keys.iter().map(|k| (*k, Some(vec![1u8]))).collect(),
        0,
    );
    let tree = JellyfishMerkleTree::new(&db);
    for k in &keys {
        let (value, proof) = tree.get_with_proof(*k, 0).unwrap();
        assert_eq!(value, Some(vec![1u8]));
        assert!(!proof.siblings().is_empty());
        assert_ne!(proof.siblings()[0], SPARSE_MERKLE_PLACEHOLDER_HASH);
        assert!(proof.siblings().len() <= 256);
        assert!(proof.verify_existence(root, *k, &[1u8]));
        // Another key shares all the bits of the way but the last.
        let n = proof.siblings().len();
        assert!(keys
            .iter()
            .any(|o| o != k && (0..n - 1).all(|i| o.get_bit(i) == k.get_bit(i))));
    }
}
