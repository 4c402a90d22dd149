use jmt::hash::KeyHash;
use jmt::mock::MockTreeStore;
use jmt::node_type::{LeafNode, Node, NodeKey};
use jmt::proofs::{ExclusionProof, SparseMerkleLeafNode, SparseMerkleProof};
use jmt::storage::{HasPreimage, JmtError, TreeReader, TreeWriter};
use jmt::tree::ics23_impl::CommitmentProofKind;
use jmt::tree::JellyfishMerkleTree;
use jmt::tree_cache::TreeCache;

/// A store whose reads fail from a given read on.
struct FailingStore {
    inner: MockTreeStore,
    reads_left: std::cell::Cell<usize>,
}

impl FailingStore {
    fn tick(&self) -> Result<(), JmtError> {
        let left = self.reads_left.get();
        if left == 0 {
            Err(JmtError::Reader)
        } else {
            self.reads_left.set(left - 1);
            Ok(())
        }
    }
}

impl TreeReader for FailingStore {
    fn get_node_option(&self, node_key: &NodeKey) -> Result<Option<Node>, JmtError> {
        self.tick()?;
        self.inner.get_node_option(node_key)
    }

    fn get_rightmost_leaf(&self) -> Result<Option<(NodeKey, LeafNode)>, JmtError> {
        self.tick()?;
        self.inner.get_rightmost_leaf()
    }
}

impl HasPreimage for FailingStore {
    fn preimage(&self, key_hash: KeyHash) -> Result<Option<Vec<u8>>, JmtError> {
        self.tick()?;
        self.inner.preimage(key_hash)
    }
}

fn store_with(keys: &[&[u8]]) -> MockTreeStore {
    let mut db = MockTreeStore::default();
    let kvs = keys
        .iter()
        .map(|k| (KeyHash::from(*k), Some(k.to_vec())))
        .collect();
    let (_, batch) = JellyfishMerkleTree::new(&db).put_value_set(kvs, 0).unwrap();
    db.write_tree_update_batch(batch).unwrap();
    for k in keys {
        db.put_key_preimage(&k.to_vec());
    }
    db
}

#[test]
fn test_reader_failure_is_handed_on() {
    let keys: Vec<Vec<u8>> = (0..30u32).map(|i| format!("r{}", i).into_bytes()).collect();
    let refs: Vec<&[u8]> = keys.iter().map(|k| k.as_slice()).collect();
    for reads in 0..3 {
        let store = FailingStore {
            inner: store_with(&refs),
            reads_left: std::cell::Cell::new(reads),
        };
        let tree = JellyfishMerkleTree::new(&store);
        let key = KeyHash::from(b"r7".as_slice());
        if reads == 0 {
            assert_eq!(tree.get_root_hash(0), Err(JmtError::Reader));
            assert!(matches!(TreeCache::new(&store, 0), Err(JmtError::Reader)));
        } else if reads == 1 {
            assert_eq!(tree.get(key, 0), Err(JmtError::Reader));
        } else {
            assert_eq!(
                tree.get_with_ics23_proof(b"absent".to_vec(), 0),
                Err(JmtError::Reader)
            );
            assert_eq!(
                tree.put_value_set(vec![(key, None)], 1).map(|_| ()),
                Err(JmtError::Reader)
            );
        }
    }
    // With reads enough, the failing store answers as the store inside it.
    let store = FailingStore {
        inner: store_with(&refs),
        reads_left: std::cell::Cell::new(1000),
    };
    let tree = JellyfishMerkleTree::new(&store);
    assert_eq!(
        tree.get(KeyHash::from(b"r7".as_slice()), 0),
        Ok(Some(b"r7".to_vec()))
    );
    assert!(tree.get_with_ics23_proof(b"absent".to_vec(), 0).is_ok());
}

#[test]
fn test_missing_value_for_a_leaf_that_is_not_in_the_tree() {
    let mut db = store_with(&[b"here"]);
    db.put_key_preimage(&b"not here".to_vec());
    let tree = JellyfishMerkleTree::new(&db);
    let ghost = SparseMerkleLeafNode::new(KeyHash::from(b"not here".as_slice()), [0; 32]);
    let exclusion = ExclusionProof::Leftmost {
        leftmost_right_proof: SparseMerkleProof::new(Some(ghost), vec![]),
    };
    assert_eq!(
        tree.exclusion_proof_to_ics23_nonexistence_proof(b"q".to_vec(), 0, &exclusion),
        Err(JmtError::MissingValue)
    );
    // The key of the leaf is looked up before its value where the leaf is
    // the only neighbour above, and after it otherwise.
    let unknown = SparseMerkleLeafNode::new(KeyHash::from(b"unknown".as_slice()), [0; 32]);
    let leftmost = ExclusionProof::Leftmost {
        leftmost_right_proof: SparseMerkleProof::new(Some(unknown), vec![]),
    };
    assert_eq!(
        tree.exclusion_proof_to_ics23_nonexistence_proof(b"q".to_vec(), 0, &leftmost),
        Err(JmtError::MissingPreimage)
    );
    let rightmost = ExclusionProof::Rightmost {
        rightmost_left_proof: SparseMerkleProof::new(Some(unknown), vec![]),
    };
    assert_eq!(
        tree.exclusion_proof_to_ics23_nonexistence_proof(b"q".to_vec(), 0, &rightmost),
        Err(JmtError::MissingValue)
    );
}

#[test]
fn test_nonexistence_proof_names_the_key_or_its_hash() {
    let db = store_with(&[b"a", b"b", b"c", b"d", b"e", b"f", b"g", b"h"]);
    let tree = JellyfishMerkleTree::new(&db);
    let mut seen_middle = false;
    let mut seen_edge = false;
    for i in 0..64u32 {
        let query = format!("query {}", i).into_bytes();
        let hash = KeyHash::from(query.as_slice());
        let exclusion = match tree.get_with_exclusion_proof(hash, 0).unwrap() {
            Err(e) => e,
            Ok(_) => panic!("the key is absent"),
        };
        let p = tree
            .exclusion_proof_to_ics23_nonexistence_proof(query.clone(), 0, &exclusion)
            .unwrap();
        match exclusion {
            ExclusionProof::Middle { .. } => {
                seen_middle = true;
                assert_eq!(p.key, query);
                assert!(p.left.is_some() && p.right.is_some());
                assert!(KeyHash::from(p.left.unwrap().key.as_slice()) < hash);
                assert!(hash < KeyHash::from(p.right.unwrap().key.as_slice()));
            }
            ExclusionProof::Leftmost { .. } => {
                seen_edge = true;
                assert_eq!(p.key, hash.0.to_vec());
                assert!(p.left.is_none() && p.right.is_some());
            }
            ExclusionProof::Rightmost { .. } => {
                seen_edge = true;
                assert_eq!(p.key, hash.0.to_vec());
                assert!(p.left.is_some() && p.right.is_none());
            }
        }
    }
    assert!(seen_middle && seen_edge);
}

#[test]
fn test_write_is_all_or_nothing() {
    let mut db = MockTreeStore::default();
    let k = KeyHash::from(b"k".as_slice());
    let (_, batch) = JellyfishMerkleTree::new(&db)
        .put_value_set(vec![(k, Some(vec![1]))], 0)
        .unwrap();
    let (_, again) = JellyfishMerkleTree::new(&db)
        .put_value_set(
            vec![(k, Some(vec![1])), (KeyHash::from(b"l".as_slice()), Some(vec![2]))],
            0,
        )
        .unwrap();
    db.write_tree_update_batch(batch).unwrap();
    // The second batch writes the root of version 0 again: nothing of it
    // is written.
    assert_eq!(db.write_tree_update_batch(again), Err(JmtError::InvalidOperation));
    let tree = JellyfishMerkleTree::new(&db);
    assert_eq!(tree.get(k, 0).unwrap(), Some(vec![1]));
    assert_eq!(tree.get(KeyHash::from(b"l".as_slice()), 0).unwrap(), None);
}

/// A store that answers no question about keys.
struct NoPreimages {
    inner: MockTreeStore,
}

impl TreeReader for NoPreimages {
    fn get_node_option(&self, node_key: &NodeKey) -> Result<Option<Node>, JmtError> {
        self.inner.get_node_option(node_key)
    }

    fn get_rightmost_leaf(&self) -> Result<Option<(NodeKey, LeafNode)>, JmtError> {
        self.inner.get_rightmost_leaf()
    }
}

impl HasPreimage for NoPreimages {
    fn preimage(&self, _key_hash: KeyHash) -> Result<Option<Vec<u8>>, JmtError> {
        Err(JmtError::Reader)
    }
}

#[test]
fn test_proof_of_a_key_with_a_value_reads_no_preimage() {
    let store = NoPreimages { inner: store_with(&[b"a", b"b", b"c", b"d"]) };
    let tree = JellyfishMerkleTree::new(&store);
    for key in [b"a", b"b", b"c", b"d"] {
        let proof = tree.get_with_ics23_proof(key.to_vec(), 0).unwrap();
        match proof.proof {
            Some(CommitmentProofKind::Exist(e)) => {
                assert_eq!(e.key, key.to_vec());
                assert_eq!(e.value, key.to_vec());
            }
            other => panic!("the proof is {:?}", other),
        }
    }
    // A key without a value is shown by its neighbours, whose keys are read.
    assert_eq!(tree.get_with_ics23_proof(b"e".to_vec(), 0), Err(JmtError::Reader));
}

fn leaf_proof(name: &[u8]) -> SparseMerkleProof {
    SparseMerkleProof::new(
        Some(SparseMerkleLeafNode::new(KeyHash::from(name), [0; 32])),
        vec![],
    )
}

fn from_two(
    db: &MockTreeStore,
    above: &[u8],
    below: &[u8],
) -> Result<jmt::tree::ics23_impl::NonExistenceProof, JmtError> {
    let exclusion = ExclusionProof::Middle {
        leftmost_right_proof: leaf_proof(above),
        rightmost_left_proof: leaf_proof(below),
    };
    JellyfishMerkleTree::new(db).exclusion_proof_to_ics23_nonexistence_proof(
        b"q".to_vec(),
        0,
        &exclusion,
    )
}

#[test]
fn test_error_kind_with_two_neighbors() {
    // "here" has a value and a known key, "named" a known key and no value,
    // "unknown" neither.
    let mut db = store_with(&[b"here"]);
    db.put_key_preimage(&b"named".to_vec());
    // The value of a leaf is looked up before its key.
    assert_eq!(from_two(&db, b"unknown", b"here"), Err(JmtError::MissingValue));
    assert_eq!(from_two(&db, b"here", b"unknown"), Err(JmtError::MissingValue));
    assert_eq!(from_two(&db, b"named", b"here"), Err(JmtError::MissingValue));
    assert_eq!(from_two(&db, b"here", b"named"), Err(JmtError::MissingValue));
    let made = from_two(&db, b"here", b"here").unwrap();
    assert_eq!(made.key, b"q".to_vec());
    assert_eq!(made.left.unwrap().key, b"here".to_vec());
    assert_eq!(made.right.unwrap().key, b"here".to_vec());

    // "nameless" has a value, and the store does not know its key.
    let mut db = MockTreeStore::default();
    let kvs = vec![
        (KeyHash::from(b"here".as_slice()), Some(b"1".to_vec())),
        (KeyHash::from(b"nameless".as_slice()), Some(b"2".to_vec())),
    ];
    let (_, batch) = JellyfishMerkleTree::new(&db).put_value_set(kvs, 0).unwrap();
    db.write_tree_update_batch(batch).unwrap();
    db.put_key_preimage(&b"here".to_vec());
    assert_eq!(from_two(&db, b"nameless", b"here"), Err(JmtError::MissingPreimage));
    assert_eq!(from_two(&db, b"here", b"nameless"), Err(JmtError::MissingPreimage));
    // Of two leaves, the one above the key is looked up first.
    assert_eq!(from_two(&db, b"nameless", b"unknown"), Err(JmtError::MissingPreimage));
    assert_eq!(from_two(&db, b"unknown", b"nameless"), Err(JmtError::MissingValue));
    // The proof for a key without a value fails just where a leaf next to
    // the key has no known key.
    let tree = JellyfishMerkleTree::new(&db);
    let nameless = KeyHash::from(b"nameless".as_slice());
    let mut failed = 0;
    for i in 0..64u32 {
        let query = format!("absent {}", i).into_bytes();
        let hash = KeyHash::from(query.as_slice());
        let leaves = match tree.get_with_exclusion_proof(hash, 0).unwrap() {
            Err(ExclusionProof::Leftmost { leftmost_right_proof: r }) => vec![r],
            Err(ExclusionProof::Middle { leftmost_right_proof: r, rightmost_left_proof: l }) => {
                vec![r, l]
            }
            Err(ExclusionProof::Rightmost { rightmost_left_proof: l }) => vec![l],
            Ok(_) => panic!("the key is absent"),
        };
        let made = tree.get_with_ics23_proof(query, 0);
        if leaves.iter().any(|p| p.leaf().unwrap().key_hash() == nameless) {
            failed += 1;
            assert_eq!(made, Err(JmtError::MissingPreimage));
        } else {
            assert!(made.is_ok());
        }
    }
    assert!(failed > 0);
}

/// A store that names the keys of two leaves by a table.
struct NamedLeaves {
    inner: MockTreeStore,
    names: Vec<(KeyHash, Vec<u8>)>,
}

impl TreeReader for NamedLeaves {
    fn get_node_option(&self, node_key: &NodeKey) -> Result<Option<Node>, JmtError> {
        self.inner.get_node_option(node_key)
    }

    fn get_rightmost_leaf(&self) -> Result<Option<(NodeKey, LeafNode)>, JmtError> {
        self.inner.get_rightmost_leaf()
    }
}

impl HasPreimage for NamedLeaves {
    fn preimage(&self, key_hash: KeyHash) -> Result<Option<Vec<u8>>, JmtError> {
        Ok(self.names.iter().find(|(h, _)| *h == key_hash).map(|(_, k)| k.clone()))
    }
}

#[test]
fn test_nonexistence_between_and_after_two_leaves() {
    let low = KeyHash([0u8; 32]);
    let mut high = KeyHash([0u8; 32]);
    high.0[0] = 0x80;
    let mut db = MockTreeStore::default();
    let kvs = vec![(low, Some(b"x".to_vec())), (high, Some(b"y".to_vec()))];
    let (_, batch) = JellyfishMerkleTree::new(&db).put_value_set(kvs, 0).unwrap();
    db.write_tree_update_batch(batch).unwrap();
    let store = NamedLeaves {
        inner: db,
        names: vec![(low, b"low key".to_vec()), (high, b"high key".to_vec())],
    };
    let tree = JellyfishMerkleTree::new(&store);
    let mut between = 0;
    let mut after = 0;
    for i in 0..32u32 {
        let query = format!("query {}", i).into_bytes();
        let hash = KeyHash::from(query.as_slice());
        let exclusion = match tree.get_with_exclusion_proof(hash, 0).unwrap() {
            Err(e) => e,
            Ok(_) => panic!("the key is absent"),
        };
        let n = tree
            .exclusion_proof_to_ics23_nonexistence_proof(query.clone(), 0, &exclusion)
            .unwrap();
        let left = n.left.expect("a leaf stands below every other key");
        assert_eq!(left.path.len(), 1);
        if hash < high {
            between += 1;
            assert_eq!(n.key, query);
            assert_eq!((left.key, left.value), (b"low key".to_vec(), b"x".to_vec()));
            let right = n.right.unwrap();
            assert_eq!(right.path.len(), 1);
            assert_eq!((right.key, right.value), (b"high key".to_vec(), b"y".to_vec()));
        } else {
            after += 1;
            assert_eq!(n.key, hash.0.to_vec());
            assert_eq!((left.key, left.value), (b"high key".to_vec(), b"y".to_vec()));
            assert_eq!(n.right, None);
        }
    }
    assert!(between > 0 && after > 0);
}
