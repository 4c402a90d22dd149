use ics23::HostFunctionsManager;
use jmt::hash::{
    KeyHash, INTERNAL_DOMAIN_SEPARATOR, LEAF_DOMAIN_SEPARATOR, SPARSE_MERKLE_PLACEHOLDER_HASH,
};
use jmt::tree::ics23_impl::{
    ics23_spec, sparse_merkle_proof_to_ics23_existence_proof, CommitmentProof,
    CommitmentProofKind, ExistenceProof, LeafOp, ProofSpec,
};
use jmt::mock::MockTreeStore;
use jmt::node_type::NodeKey;
use jmt::proofs::{ExclusionProof, RootHash, SparseMerkleProof};
use jmt::storage::{JmtError, TreeWriter};
use jmt::tree::JellyfishMerkleTree;

// The verifier hashes a key in the leaf step itself: it gets the leaf step
// that the description of the proofs gives for that.
fn to_ics23_leaf(l: &LeafOp) -> Option<ics23::LeafOp> {
    ics23_spec().merged_leaf_op(l).map(|l| ics23::LeafOp {
        hash: l.hash,
        prehash_key: l.prehash_key,
        prehash_value: l.prehash_value,
        length: l.length,
        prefix: l.prefix,
    })
}

fn to_ics23_existence(p: &ExistenceProof) -> ics23::ExistenceProof {
    ics23::ExistenceProof {
        key: p.key.clone(),
        value: p.value.clone(),
        leaf: p.leaf.as_ref().and_then(to_ics23_leaf),
        path: p
            .path
            .iter()
            .map(|op| ics23::InnerOp {
                hash: op.hash,
                prefix: op.prefix.clone(),
                suffix: op.suffix.clone(),
            })
            .collect(),
    }
}

fn to_ics23(p: &CommitmentProof) -> ics23::CommitmentProof {
    ics23::CommitmentProof {
        proof: match &p.proof {
            Some(CommitmentProofKind::Exist(e)) => {
                Some(ics23::commitment_proof::Proof::Exist(to_ics23_existence(e)))
            }
            Some(CommitmentProofKind::Nonexist(n)) => Some(
                ics23::commitment_proof::Proof::Nonexist(ics23::NonExistenceProof {
                    key: n.key.clone(),
                    left: n.left.as_ref().map(to_ics23_existence),
                    right: n.right.as_ref().map(to_ics23_existence),
                }),
            ),
            None => None,
        },
    }
}

fn to_ics23_spec(s: &ProofSpec) -> ics23::ProofSpec {
    ics23::ProofSpec {
        leaf_spec: s.leaf_spec.as_ref().and_then(to_ics23_leaf),
        inner_spec: s.inner_spec.as_ref().map(|i| ics23::InnerSpec {
            child_order: i.child_order.clone(),
            child_size: i.child_size,
            min_prefix_length: i.min_prefix_length,
            max_prefix_length: i.max_prefix_length,
            empty_child: i.empty_child.clone(),
            hash: i.hash,
        }),
        max_depth: s.max_depth,
        min_depth: s.min_depth,
        prehash_key_before_comparison: s.compares_hashed_keys(),
    }
}

fn put(db: &mut MockTreeStore, kvs: Vec<(KeyHash, Option<Vec<u8>>)>, version: u64) -> RootHash {
    let (root, batch) = JellyfishMerkleTree::new(&*db)
        .put_value_set(kvs, version)
        .unwrap();
    db.write_tree_update_batch(batch).unwrap();
    root
}

#[test]
fn test_jmt_ics23_existence() {
    let mut db = MockTreeStore::default();

    let key = b"key";
    let key_hash = KeyHash::from(key.as_slice());

    // For testing, insert multiple values into the tree
    let mut kvs = Vec::new();
    kvs.push((key_hash, Some(b"value".to_vec())));
    // make sure we have some sibling nodes, through carefully constructed k/v entries that will have overlapping paths
    for i in 1..4 {
        let mut overlap_key = KeyHash([0; 32]);
        overlap_key.0[0..i].copy_from_slice(&key_hash.0[0..i]);
        kvs.push((overlap_key, Some(b"bogus value".to_vec())));
    }

    let new_root_hash = put(&mut db, kvs, 0);
    let tree = JellyfishMerkleTree::new(&db);

    let commitment_proof = tree.get_with_ics23_proof(b"key".to_vec(), 0).unwrap();

    assert!(ics23::verify_membership::<HostFunctionsManager>(
        &to_ics23(&commitment_proof),
        &to_ics23_spec(&ics23_spec()),
        &new_root_hash.0.to_vec(),
        b"key",
        b"value",
    ));
}

#[test]
fn test_jmt_ics23_existence_random_keys() {
    let mut db = MockTreeStore::default();

    const MAX_VERSION: u64 = 1 << 14;

    for version in 0..=MAX_VERSION {
        let key = format!("key{}", version).into_bytes();
        let value = format!("value{}", version).into_bytes();
        let _root = put(&mut db, vec![(key.as_slice().into(), Some(value))], version);
    }
    let tree = JellyfishMerkleTree::new(&db);

    let commitment_proof = tree
        .get_with_ics23_proof(format!("key{}", MAX_VERSION).into_bytes(), MAX_VERSION)
        .unwrap();

    let root_hash = tree.get_root_hash(MAX_VERSION).unwrap().0.to_vec();

    assert!(ics23::verify_membership::<HostFunctionsManager>(
        &to_ics23(&commitment_proof),
        &to_ics23_spec(&ics23_spec()),
        &root_hash,
        format!("key{}", MAX_VERSION).as_bytes(),
        format!("value{}", MAX_VERSION).as_bytes(),
    ));
}

fn check_nonexistence(keys: Vec<Vec<u8>>) {
    let mut db = MockTreeStore::default();
    let mut kvs = Vec::new();

    kvs.push((KeyHash::from(b"key".as_slice()), Some(b"value1".to_vec())));
    db.put_key_preimage(&b"key".to_vec());
    for key_preimage in keys {
        let key_hash = KeyHash::from(key_preimage.as_slice());
        let value = vec![0u8; 32];
        kvs.push((key_hash, Some(value)));
        db.put_key_preimage(&key_preimage.to_vec());
    }

    let new_root_hash = put(&mut db, kvs, 0);
    let tree = JellyfishMerkleTree::new(&db);

    let commitment_proof = tree.get_with_ics23_proof(b"notexist".to_vec(), 0).unwrap();
    let commitment_proof = to_ics23(&commitment_proof);
    let spec = to_ics23_spec(&ics23_spec());

    let key_hash = b"notexist".as_slice().into();
    let proof_or_exclusion = tree.get_with_exclusion_proof(key_hash, 0).unwrap();

    match proof_or_exclusion {
        Ok(_) => panic!("expected nonexistence proof"),
        Err(exclusion_proof) => match exclusion_proof {
            ExclusionProof::Leftmost {
                leftmost_right_proof,
            } => {
                assert_eq!(leftmost_right_proof.root_hash(), new_root_hash);
            }
            ExclusionProof::Rightmost {
                rightmost_left_proof,
            } => {
                assert_eq!(rightmost_left_proof.root_hash(), new_root_hash);
            }
            ExclusionProof::Middle {
                leftmost_right_proof,
                rightmost_left_proof,
            } => {
                assert_eq!(leftmost_right_proof.root_hash(), new_root_hash);
                assert_eq!(rightmost_left_proof.root_hash(), new_root_hash);
            }
        },
    }
    assert!(ics23::verify_non_membership::<HostFunctionsManager>(
        &commitment_proof,
        &spec,
        &new_root_hash.0.to_vec(),
        b"notexist"
    ));

    assert!(!ics23::verify_non_membership::<HostFunctionsManager>(
        &commitment_proof,
        &spec,
        &new_root_hash.0.to_vec(),
        b"key",
    ));
}

#[test]
fn test_jmt_ics23_nonexistence_single_neighbor() {
    check_nonexistence(vec![]);
}

#[test]
fn test_jmt_ics23_nonexistence_few_keys() {
    check_nonexistence(vec![b"a".to_vec(), b"b".to_vec(), vec![0u8], vec![1u8, 2u8]]);
}

#[test]
fn test_jmt_ics23_nonexistence_many_keys() {
    let keys = (0..200u32)
        .map(|i| format!("some key {}", i).into_bytes())
        .collect();
    check_nonexistence(keys);
}

#[test]
fn test_jmt_ics23_nonexistence_all_shapes() {
    // Query every key of a sweep against a tree that holds the others: the
    // key with the least hash gives a leftmost proof, the one with the
    // greatest hash a rightmost one, the rest middle ones.
    let names: Vec<Vec<u8>> = (0..24u32).map(|i| format!("n{}", i).into_bytes()).collect();
    let mut leftmost = 0;
    let mut middle = 0;
    let mut rightmost = 0;
    for absent in 0..names.len() {
        let mut db = MockTreeStore::default();
        let mut kvs = Vec::new();
        for (i, name) in names.iter().enumerate() {
            if i != absent {
                kvs.push((KeyHash::from(name.as_slice()), Some(vec![7u8, i as u8])));
                db.put_key_preimage(name);
            }
        }
        let root = put(&mut db, kvs, 0);
        let tree = JellyfishMerkleTree::new(&db);
        let query = KeyHash::from(names[absent].as_slice());
        match tree.get_with_exclusion_proof(query, 0).unwrap() {
            Ok(_) => panic!("the key is absent"),
            Err(ExclusionProof::Leftmost {
                leftmost_right_proof,
            }) => {
                leftmost += 1;
                assert!(query < leftmost_right_proof.leaf().unwrap().key_hash());
                assert_eq!(leftmost_right_proof.root_hash(), root);
            }
            Err(ExclusionProof::Rightmost {
                rightmost_left_proof,
            }) => {
                rightmost += 1;
                assert!(rightmost_left_proof.leaf().unwrap().key_hash() < query);
                assert_eq!(rightmost_left_proof.root_hash(), root);
            }
            Err(ExclusionProof::Middle {
                leftmost_right_proof,
                rightmost_left_proof,
            }) => {
                middle += 1;
                assert!(rightmost_left_proof.leaf().unwrap().key_hash() < query);
                assert!(query < leftmost_right_proof.leaf().unwrap().key_hash());
                assert_eq!(leftmost_right_proof.root_hash(), root);
                assert_eq!(rightmost_left_proof.root_hash(), root);
            }
        }
        let proof = tree.get_with_ics23_proof(names[absent].clone(), 0).unwrap();
        assert!(ics23::verify_non_membership::<HostFunctionsManager>(
            &to_ics23(&proof),
            &to_ics23_spec(&ics23_spec()),
            &root.0.to_vec(),
            &names[absent],
        ));
        for (i, name) in names.iter().enumerate() {
            if i != absent {
                assert!(!ics23::verify_non_membership::<HostFunctionsManager>(
                    &to_ics23(&proof),
                    &to_ics23_spec(&ics23_spec()),
                    &root.0.to_vec(),
                    name,
                ));
            }
        }
    }
    assert_eq!(leftmost, 1);
    assert_eq!(rightmost, 1);
    assert_eq!(middle, names.len() - 2);
}

#[test]
fn test_ics23_membership_of_every_key() {
    let mut db = MockTreeStore::default();
    let mut kvs = Vec::new();
    for i in 0..64u32 {
        let key = format!("member {}", i).into_bytes();
        kvs.push((KeyHash::from(key.as_slice()), Some(format!("v{}", i).into_bytes())));
    }
    let root = put(&mut db, kvs, 0);
    let tree = JellyfishMerkleTree::new(&db);
    let spec = to_ics23_spec(&ics23_spec());
    for i in 0..64u32 {
        let key = format!("member {}", i).into_bytes();
        let value = format!("v{}", i).into_bytes();
        let proof = to_ics23(&tree.get_with_ics23_proof(key.clone(), 0).unwrap());
        assert!(ics23::verify_membership::<HostFunctionsManager>(
            &proof,
            &spec,
            &root.0.to_vec(),
            &key,
            &value
        ));
        // Neither another key nor another value nor another root passes.
        assert!(!ics23::verify_membership::<HostFunctionsManager>(
            &proof,
            &spec,
            &root.0.to_vec(),
            b"member x",
            &value
        ));
        assert!(!ics23::verify_membership::<HostFunctionsManager>(
            &proof,
            &spec,
            &root.0.to_vec(),
            &key,
            b"other"
        ));
        assert!(!ics23::verify_membership::<HostFunctionsManager>(
            &proof,
            &spec,
            &SPARSE_MERKLE_PLACEHOLDER_HASH.to_vec(),
            &key,
            &value
        ));
    }
}

#[test]
fn test_ics23_spec_values() {
    let spec = ics23_spec();
    let leaf = spec.leaf_spec.clone().unwrap();
    assert_eq!(leaf.hash, ics23::HashOp::Sha256 as i32);
    assert_eq!(leaf.hash, 1);
    assert_eq!(leaf.prehash_key, ics23::HashOp::NoHash as i32);
    assert_eq!(leaf.prehash_key, 0);
    assert_eq!(leaf.prehash_value, ics23::HashOp::Sha256 as i32);
    assert_eq!(leaf.length, ics23::LengthOp::NoPrefix as i32);
    assert_eq!(leaf.length, 0);
    assert_eq!(leaf.prefix, b"JMT::LeafNode".to_vec());
    assert_eq!(leaf.prefix, LEAF_DOMAIN_SEPARATOR.to_vec());
    let inner = spec.inner_spec.clone().unwrap();
    assert_eq!(inner.hash, 1);
    assert_eq!(inner.child_order, vec![0, 1]);
    assert_eq!(inner.min_prefix_length, 16);
    assert_eq!(inner.max_prefix_length, 16);
    assert_eq!(inner.min_prefix_length as usize, INTERNAL_DOMAIN_SEPARATOR.len());
    assert_eq!(inner.child_size, 32);
    assert_eq!(inner.empty_child, b"SPARSE_MERKLE_PLACEHOLDER_HASH__".to_vec());
    assert_eq!(spec.min_depth, 0);
    assert_eq!(spec.max_depth, 64);
    assert_eq!(spec.prehash_compared_key, ics23::HashOp::Sha256 as i32);
    assert_eq!(spec.prehash_compared_value, ics23::HashOp::NoHash as i32);
    assert!(spec.compares_hashed_keys());
    // For a verifier that hashes keys in the leaf step itself.
    let merged = spec.merged_leaf_op(&leaf).unwrap();
    assert_eq!(
        (merged.hash, merged.prehash_key, merged.prehash_value, merged.length),
        (1, 1, 1, 0)
    );
    assert_eq!(merged.prefix, leaf.prefix);
}

#[test]
fn test_existence_proof_steps_follow_key_bits() {
    // SHA-256 of the empty key starts with e3 = 1110 0011.
    let key_hash = KeyHash::from(b"".as_slice());
    assert_eq!(key_hash.0[0], 0xe3);
    let siblings = vec![[1u8; 32], [2u8; 32], [3u8; 32], [4u8; 32]];
    let proof = SparseMerkleProof::new(None, siblings);
    let e = sparse_merkle_proof_to_ics23_existence_proof(vec![], b"v".to_vec(), &proof);
    assert_eq!(e.key, Vec::<u8>::new());
    assert_eq!(e.value, b"v".to_vec());
    assert_eq!(e.path.len(), 4);
    // Step 0 goes by bit 3 (0), step 1 by bit 2 (1), step 2 by bit 1 (1),
    // step 3 by bit 0 (1).
    let sep = INTERNAL_DOMAIN_SEPARATOR.to_vec();
    assert_eq!(e.path[0].prefix, sep);
    assert_eq!(e.path[0].suffix, vec![1u8; 32]);
    for (j, fill) in [(1usize, 2u8), (2, 3), (3, 4)] {
        let mut prefix = sep.clone();
        prefix.extend_from_slice(&[fill; 32]);
        assert_eq!(e.path[j].prefix, prefix);
        assert_eq!(e.path[j].suffix, Vec::<u8>::new());
        assert_eq!(e.path[j].hash, 1);
    }
    let leaf = e.leaf.unwrap();
    assert_eq!(leaf.prefix, LEAF_DOMAIN_SEPARATOR.to_vec());
    assert_eq!((leaf.hash, leaf.prehash_key, leaf.prehash_value, leaf.length), (1, 0, 1, 0));
    assert_eq!(Some(leaf), ics23_spec().leaf_spec);
}

#[test]
fn test_ics23_proof_of_empty_tree_is_an_error() {
    let mut db = MockTreeStore::default();
    let _ = put(&mut db, vec![], 0);
    let tree = JellyfishMerkleTree::new(&db);
    assert_eq!(
        tree.get_with_ics23_proof(b"any".to_vec(), 0),
        Err(JmtError::InvalidOperation)
    );
}

#[test]
fn test_ics23_missing_preimage() {
    let mut db = MockTreeStore::default();
    let kvs = vec![(KeyHash::from(b"key".as_slice()), Some(b"value".to_vec()))];
    let _ = put(&mut db, kvs, 0);
    let tree = JellyfishMerkleTree::new(&db);
    assert_eq!(
        tree.get_with_ics23_proof(b"notexist".to_vec(), 0),
        Err(JmtError::MissingPreimage)
    );
}

#[test]
fn test_ics23_missing_version() {
    let db = MockTreeStore::default();
    let tree = JellyfishMerkleTree::new(&db);
    assert_eq!(
        tree.get_with_ics23_proof(b"key".to_vec(), 5),
        Err(JmtError::MissingNode(NodeKey::new_empty_path(5)))
    );
}

#[test]
fn test_ics23_takes_no_empty_value() {
    // The tree holds an empty value like any other; the verifier of the
    // format takes no proof with an empty value.
    let mut db = MockTreeStore::default();
    let kvs = vec![
        (KeyHash::from(b"empty".as_slice()), Some(vec![])),
        (KeyHash::from(b"full".as_slice()), Some(b"v".to_vec())),
    ];
    let root = put(&mut db, kvs, 0);
    let tree = JellyfishMerkleTree::new(&db);
    assert_eq!(
        tree.get(KeyHash::from(b"empty".as_slice()), 0).unwrap(),
        Some(vec![])
    );
    let (value, native) = tree
        .get_with_proof(KeyHash::from(b"empty".as_slice()), 0)
        .unwrap();
    assert_eq!(value, Some(vec![]));
    assert!(native.verify_existence(root, KeyHash::from(b"empty".as_slice()), b""));
    let proof = to_ics23(&tree.get_with_ics23_proof(b"empty".to_vec(), 0).unwrap());
    let spec = to_ics23_spec(&ics23_spec());
    assert!(!ics23::verify_membership::<HostFunctionsManager>(
        &proof,
        &spec,
        &root.0.to_vec(),
        b"empty",
        b""
    ));
    let proof = to_ics23(&tree.get_with_ics23_proof(b"full".to_vec(), 0).unwrap());
    assert!(ics23::verify_membership::<HostFunctionsManager>(
        &proof,
        &spec,
        &root.0.to_vec(),
        b"full",
        b"v"
    ));
}

#[test]
fn test_existence_proof_gives_the_root() {
    // The root that the steps of the proof give, computed here step by
    // step, is the root of the tree.
    let mut db = MockTreeStore::default();
    let kvs = (0..20u32)
        .map(|i| (KeyHash::from(format!("s{}", i).as_bytes()), Some(vec![i as u8 + 1])))
        .collect();
    let root = put(&mut db, kvs, 0);
    let tree = JellyfishMerkleTree::new(&db);
    for i in 0..20u32 {
        let key = format!("s{}", i).into_bytes();
        let e = match tree.get_with_ics23_proof(key.clone(), 0).unwrap().proof {
            Some(CommitmentProofKind::Exist(e)) => e,
            other => panic!("{:?}", other),
        };
        assert_eq!(e.key, key);
        assert_eq!(e.value, vec![i as u8 + 1]);
        let leaf = e.leaf.clone().unwrap();
        let mut input = leaf.prefix.clone();
        input.extend_from_slice(&jmt::hash::hash_value(&e.key));
        input.extend_from_slice(&jmt::hash::hash_value(&e.value));
        let mut hash = jmt::hash::hash_value(&input).to_vec();
        for op in &e.path {
            assert!(
                (op.prefix.len() == 16 && op.suffix.len() == 32)
                    || (op.prefix.len() == 48 && op.suffix.is_empty())
            );
            let mut input = op.prefix.clone();
            input.extend_from_slice(&hash);
            input.extend_from_slice(&op.suffix);
            hash = jmt::hash::hash_value(&input).to_vec();
        }
        assert_eq!(hash, root.0.to_vec());
        assert_eq!(
            ics23::calculate_existence_root::<HostFunctionsManager>(&to_ics23_existence(&e))
                .unwrap(),
            root.0.to_vec()
        );
    }
}

#[test]
fn test_ics23_sweep_every_version() {
    // Every key is shown at the version that put it, and at the versions
    // after it; a key that comes later is shown to be absent.
    let mut db = MockTreeStore::default();
    let spec = to_ics23_spec(&ics23_spec());
    let count = 120u64;
    let mut roots = Vec::new();
    for version in 0..count {
        let key = format!("key{}", version).into_bytes();
        let value = format!("value{}", version).into_bytes();
        db.put_key_preimage(&key);
        roots.push(put(&mut db, vec![(key.as_slice().into(), Some(value))], version));
    }
    let tree = JellyfishMerkleTree::new(&db);
    for version in 0..count {
        assert_eq!(tree.get_root_hash(version).unwrap(), roots[version as usize]);
        let root = roots[version as usize].0.to_vec();
        for i in [0, version / 2, version] {
            let key = format!("key{}", i).into_bytes();
            let value = format!("value{}", i).into_bytes();
            let proof = to_ics23(&tree.get_with_ics23_proof(key.clone(), version).unwrap());
            assert!(ics23::verify_membership::<HostFunctionsManager>(
                &proof, &spec, &root, &key, &value
            ));
            assert!(!ics23::verify_non_membership::<HostFunctionsManager>(
                &proof, &spec, &root, &key
            ));
        }
        let later = format!("key{}", version + 1).into_bytes();
        let proof = to_ics23(&tree.get_with_ics23_proof(later.clone(), version).unwrap());
        assert!(ics23::verify_non_membership::<HostFunctionsManager>(
            &proof, &spec, &root, &later
        ));
        assert!(!ics23::verify_membership::<HostFunctionsManager>(
            &proof,
            &spec,
            &root,
            &later,
            format!("value{}", version + 1).as_bytes()
        ));
    }
}

#[test]
fn test_proofs_are_the_same_for_the_same_content() {
    // One batch, or the same entries over many versions in another order:
    // the hashes beside the way to a key, and so the proofs, are the same.
    let keys: Vec<Vec<u8>> = (0..40u32).map(|i| format!("same{}", i).into_bytes()).collect();
    let entries: Vec<(KeyHash, Option<Vec<u8>>)> = keys
        .iter()
        .map(|k| (KeyHash::from(k.as_slice()), Some(k.clone())))
        .collect();
    let mut one = MockTreeStore::default();
    let root_one = put(&mut one, entries.clone(), 0);
    let mut steps = MockTreeStore::default();
    let mut root_steps = RootHash(SPARSE_MERKLE_PLACEHOLDER_HASH);
    for (version, entry) in entries.iter().rev().enumerate() {
        root_steps = put(&mut steps, vec![entry.clone()], version as u64);
    }
    assert_eq!(root_one, root_steps);
    for k in &keys {
        one.put_key_preimage(k);
        steps.put_key_preimage(k);
    }
    let last = (keys.len() - 1) as u64;
    let tree_one = JellyfishMerkleTree::new(&one);
    let tree_steps = JellyfishMerkleTree::new(&steps);
    for k in &keys {
        let hash = KeyHash::from(k.as_slice());
        let (_, in_one) = tree_one.get_with_proof(hash, 0).unwrap();
        let (_, in_steps) = tree_steps.get_with_proof(hash, last).unwrap();
        assert_eq!(in_one.siblings(), in_steps.siblings());
        assert_eq!(in_one.leaf(), in_steps.leaf());
        assert_eq!(
            sparse_merkle_proof_to_ics23_existence_proof(k.clone(), k.clone(), &in_one),
            sparse_merkle_proof_to_ics23_existence_proof(k.clone(), k.clone(), &in_steps)
        );
        assert_eq!(
            tree_one.get_with_ics23_proof(k.clone(), 0),
            tree_steps.get_with_ics23_proof(k.clone(), last)
        );
    }
    for i in 0..20u32 {
        let absent = format!("other{}", i).into_bytes();
        assert_eq!(
            tree_one.get_with_ics23_proof(absent.clone(), 0),
            tree_steps.get_with_ics23_proof(absent, last)
        );
    }
}

#[test]
fn test_proofs_stay_once_stale_nodes_are_removed() {
    // A store that holds only the nodes that no batch marked stale gives
    // the proofs of the last version as the full store does.
    let mut db = MockTreeStore::default();
    let mut written = Vec::new();
    let mut stale = Vec::new();
    let mut keys = Vec::new();
    let versions = 25u64;
    for version in 0..versions {
        let key = format!("pruned{}", version).into_bytes();
        let mut kvs = vec![(KeyHash::from(key.as_slice()), Some(vec![version as u8 + 1]))];
        if version % 3 == 2 {
            let gone = format!("pruned{}", version - 1).into_bytes();
            kvs.push((KeyHash::from(gone.as_slice()), None));
        }
        if version % 4 == 3 {
            let again = format!("pruned{}", version - 3).into_bytes();
            kvs.push((KeyHash::from(again.as_slice()), Some(vec![0xee, version as u8])));
        }
        keys.push(key.clone());
        db.put_key_preimage(&key);
        let (_, batch) = JellyfishMerkleTree::new(&db).put_value_set(kvs, version).unwrap();
        written.extend(batch.node_batch.nodes().iter().map(|(k, n)| (k.clone(), n.clone())));
        stale.extend(batch.stale_node_index_batch.entries().iter().map(|s| s.node_key.clone()));
        db.write_tree_update_batch(batch).unwrap();
    }
    let mut pruned = MockTreeStore::default();
    let mut left = 0;
    for (key, node) in &written {
        if !stale.contains(key) {
            pruned.put_node(key.clone(), node.clone()).unwrap();
            left += 1;
        }
    }
    assert_eq!(left, written.len() - stale.len());
    assert!(left < written.len());
    for key in &keys {
        pruned.put_key_preimage(key);
    }
    let last = versions - 1;
    let full = JellyfishMerkleTree::new(&db);
    let kept = JellyfishMerkleTree::new(&pruned);
    assert_eq!(kept.get_root_hash(last), full.get_root_hash(last));
    keys.push(b"never there".to_vec());
    keys.push(b"nor this".to_vec());
    let mut with_value = 0;
    for key in &keys {
        let hash = KeyHash::from(key.as_slice());
        let value = kept.get(hash, last).unwrap();
        assert_eq!(value, full.get(hash, last).unwrap());
        let made = kept.get_with_ics23_proof(key.clone(), last);
        assert!(made.is_ok());
        assert_eq!(made, full.get_with_ics23_proof(key.clone(), last));
        if let Some(value) = value {
            with_value += 1;
            assert!(ics23::verify_membership::<HostFunctionsManager>(
                &to_ics23(&made.unwrap()),
                &to_ics23_spec(&ics23_spec()),
                &full.get_root_hash(last).unwrap().0.to_vec(),
                key,
                &value,
            ));
        }
    }
    assert!(with_value > 0 && with_value < keys.len());
    // The tree of an earlier version has lost nodes.
    assert!((0..last).any(|v| {
        keys.iter().any(|k| kept.get(KeyHash::from(k.as_slice()), v).is_err())
    }));
}
