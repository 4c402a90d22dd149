use jmt::hash::{
    bytes32_eq, hash_internal, hash_leaf, hash_value, KeyHash, INTERNAL_DOMAIN_SEPARATOR,
    LEAF_DOMAIN_SEPARATOR, SPARSE_MERKLE_PLACEHOLDER_HASH,
};
use jmt::types::nibble::nibble_path::NibblePath;
use jmt::node_type::{Child, InternalNode, LeafNode, Node, NodeKey};
use jmt::types::PRE_GENESIS_VERSION;
use jmt::proofs::{RootHash, SparseMerkleLeafNode, SparseMerkleProof};
use sha2::{Digest, Sha256};

fn sha(parts: &[&[u8]]) -> [u8; 32] {
    let mut h = Sha256::new();
    for p in parts {
        h.update(p);
    }
    h.finalize().into()
}

#[test]
fn test_constants() {
    assert_eq!(&LEAF_DOMAIN_SEPARATOR, b"JMT::LeafNode");
    assert_eq!(&INTERNAL_DOMAIN_SEPARATOR, b"JMT::IntrnalNode");
    assert_eq!(&SPARSE_MERKLE_PLACEHOLDER_HASH, b"SPARSE_MERKLE_PLACEHOLDER_HASH__");
    assert_eq!(PRE_GENESIS_VERSION, u64::MAX - 1);
}

#[test]
fn test_sha256_of_known_inputs() {
    let empty = [
        0xe3, 0xb0, 0xc4, 0x42, 0x98, 0xfc, 0x1c, 0x14, 0x9a, 0xfb, 0xf4, 0xc8, 0x99, 0x6f, 0xb9,
        0x24, 0x27, 0xae, 0x41, 0xe4, 0x64, 0x9b, 0x93, 0x4c, 0xa4, 0x95, 0x99, 0x1b, 0x78, 0x52,
        0xb8, 0x55,
    ];
    let abc = [
        0xba, 0x78, 0x16, 0xbf, 0x8f, 0x01, 0xcf, 0xea, 0x41, 0x41, 0x40, 0xde, 0x5d, 0xae, 0x22,
        0x23, 0xb0, 0x03, 0x61, 0xa3, 0x96, 0x17, 0x7a, 0x9c, 0xb4, 0x10, 0xff, 0x61, 0xf2, 0x00,
        0x15, 0xad,
    ];
    assert_eq!(hash_value(b""), empty);
    assert_eq!(hash_value(b"abc"), abc);
    assert_eq!(KeyHash::from(b"abc".as_slice()), KeyHash(abc));
    assert_eq!(KeyHash::with_sha256(b"abc"), KeyHash(abc));
}

#[test]
fn test_hash_formulas() {
    let k = [3u8; 32];
    let v = [4u8; 32];
    assert_eq!(hash_leaf(&k, &v), sha(&[b"JMT::LeafNode", &k, &v]));
    assert_eq!(hash_internal(&k, &v), sha(&[b"JMT::IntrnalNode", &k, &v]));
    assert_ne!(hash_internal(&k, &v), hash_internal(&v, &k));
    let leaf = LeafNode::new(KeyHash(k), b"value".to_vec());
    assert_eq!(leaf.value_hash(), sha(&[b"value"]));
    assert_eq!(leaf.hash(), sha(&[b"JMT::LeafNode", &k, &sha(&[b"value"])]));
    assert_eq!(Node::new_null().hash(), SPARSE_MERKLE_PLACEHOLDER_HASH);
    assert!(bytes32_eq(&k, &k));
    assert!(!bytes32_eq(&k, &v));
}

#[test]
fn test_key_hash_bits_and_nibbles() {
    let mut bytes = [0u8; 32];
    bytes[0] = 0b1010_0001;
    bytes[1] = 0x5c;
    bytes[31] = 0x01;
    let k = KeyHash(bytes);
    let bits: Vec<bool> = (0..8).map(|i| k.get_bit(i)).collect();
    assert_eq!(bits, vec![true, false, true, false, false, false, false, true]);
    assert!(k.get_bit(255));
    assert!(!k.get_bit(254));
    assert_eq!(k.get_nibble(0), 0xa);
    assert_eq!(k.get_nibble(1), 0x1);
    assert_eq!(k.get_nibble(2), 0x5);
    assert_eq!(k.get_nibble(3), 0xc);
    assert_eq!(k.get_nibble(63), 0x1);
    assert!(KeyHash([0; 32]).lt(&k));
    assert!(!k.lt(&k));
    assert!(!k.lt(&KeyHash([0; 32])));
    assert!(k.same(&KeyHash(bytes)));
}

#[test]
fn test_nibble_path() {
    let mut path = NibblePath::empty();
    assert!(path.is_empty());
    assert_eq!(path.pop(), None);
    path.push(0x1);
    path.push(0x2);
    path.push(0x3);
    assert_eq!(path.num_nibbles(), 3);
    assert_eq!(path.bytes(), &vec![0x12, 0x30]);
    assert_eq!(path.get_nibble(0), 1);
    assert_eq!(path.get_nibble(2), 3);
    let even = NibblePath::new(vec![0x12, 0x34]);
    assert_eq!(even.num_nibbles(), 4);
    assert!(!path.same(&even));
    path.push(0x4);
    assert!(path.same(&even));
    assert_eq!(path, even);
    assert_eq!(path.pop(), Some(4));
    assert_eq!(path.pop(), Some(3));
    assert_eq!(path.bytes(), &vec![0x12]);
    let mut key = [0u8; 32];
    key[0] = 0x12;
    key[1] = 0x34;
    assert!(even.is_prefix_of(&KeyHash(key)));
    assert!(!even.is_prefix_of(&KeyHash([0x12; 32])));
    assert_eq!(NibblePath::from_key_prefix(&KeyHash(key), 4), even);
    assert_eq!(NibblePath::from_key_prefix(&KeyHash(key), 64).num_nibbles(), 64);
}

#[test]
fn test_node_key() {
    let root = NodeKey::new_empty_path(7);
    assert_eq!(root.version(), 7);
    assert!(root.nibble_path().is_empty());
    let child = root.gen_child_node_key(9, 0xb);
    assert_eq!(child.version(), 9);
    assert_eq!(child.nibble_path().bytes(), &vec![0xb0]);
    assert!(!child.same(&root));
    assert!(child.same(&NodeKey::new(9, {
        let mut p = NibblePath::empty();
        p.push(0xb);
        p
    })));
}

#[test]
fn test_internal_node_hash_and_siblings() {
    let leaf = |fill: u8| Child { hash: [fill; 32], version: 0, is_leaf: true, leaf_count: 1 };
    let inner = |fill: u8| Child { hash: [fill; 32], version: 0, is_leaf: false, leaf_count: 5 };
    let p = SPARSE_MERKLE_PLACEHOLDER_HASH;
    // One leaf alone: its hash goes up as it is.
    let mut node = InternalNode::new();
    node.set_child(5, Some(leaf(1)));
    assert_eq!(node.hash(), [1; 32]);
    assert_eq!(node.get_child_with_siblings(5), (Some(5), vec![]));
    // The way to an empty slot of the same node ends at that leaf.
    assert_eq!(node.get_child_with_siblings(9), (Some(5), vec![]));
    // One inner child alone: four levels above it.
    let mut node = InternalNode::new();
    node.set_child(5, Some(inner(2)));
    let l0 = hash_internal(&p, &[2; 32]);
    let l1 = hash_internal(&l0, &p);
    let l2 = hash_internal(&p, &l1);
    let l3 = hash_internal(&l2, &p);
    assert_eq!(node.hash(), l3);
    assert_eq!(node.get_child_with_siblings(5), (Some(5), vec![p, p, p, p]));
    assert_eq!(node.get_child_with_siblings(4), (None, vec![[2; 32], p, p, p]));
    assert_eq!(node.get_child_with_siblings(15), (None, vec![l2]));
    // Leaves in slots 0, 1 and 8.
    let mut node = InternalNode::new();
    node.set_child(0, Some(leaf(3)));
    node.set_child(1, Some(leaf(4)));
    node.set_child(8, Some(leaf(5)));
    let pair = hash_internal(&[3; 32], &[4; 32]);
    let quad = hash_internal(&pair, &p);
    let left = hash_internal(&quad, &p);
    assert_eq!(node.hash(), hash_internal(&left, &[5; 32]));
    assert_eq!(
        node.get_child_with_siblings(1),
        (Some(1), vec![[3; 32], p, p, [5; 32]])
    );
    assert_eq!(node.get_child_with_siblings(8), (Some(8), vec![left]));
    assert_eq!(node.get_child_with_siblings(12), (Some(8), vec![left]));
    assert_eq!(node.get_child_with_siblings(2), (None, vec![pair, p, [5; 32]]));
    assert_eq!(node.num_children(), 3);
    assert_eq!(node.leaf_count(), 3);
    node.set_child(9, Some(inner(6)));
    assert_eq!(node.leaf_count(), 8);
    node.set_child(10, Some(Child { hash: [0; 32], version: 0, is_leaf: false, leaf_count: usize::MAX - 2 }));
    assert_eq!(node.leaf_count(), usize::MAX);
    node.set_child(9, None);
    node.set_child(10, None);
    assert_eq!(node.first_child_slot(), 0);
    assert_eq!(node.child_before(8), Some(1));
    assert_eq!(node.child_before(0), None);
    assert_eq!(node.child_from(2), Some(8));
    assert_eq!(node.child_from(9), None);
    assert_eq!(InternalNode::new().hash(), p);
    assert_eq!(InternalNode::new().first_child_slot(), 16);
}

#[test]
fn test_proof_root() {
    let mut key = [0u8; 32];
    key[0] = 0b0100_0000;
    let key = KeyHash(key);
    let leaf = SparseMerkleLeafNode::new(key, [7; 32]);
    assert_eq!(leaf.hash(), hash_leaf(&key.0, &[7; 32]));
    // Two siblings: the deepest goes with bit 1 (set), the next with bit 0.
    let proof = SparseMerkleProof::new(Some(leaf), vec![[1; 32], [2; 32]]);
    let below = hash_internal(&[1; 32], &leaf.hash());
    let root = hash_internal(&below, &[2; 32]);
    assert_eq!(proof.root_hash(), RootHash(root));
    assert_eq!(proof.root_hash_for(key), RootHash(root));
    assert_eq!(proof.clone(), proof);
    // For a key that turns the other way at bit 1 the root differs.
    assert_eq!(
        proof.root_hash_for(KeyHash([0; 32])),
        RootHash(hash_internal(&hash_internal(&leaf.hash(), &[1; 32]), &[2; 32]))
    );
    let empty = SparseMerkleProof::new(None, vec![]);
    assert_eq!(empty.root_hash_for(key), RootHash(SPARSE_MERKLE_PLACEHOLDER_HASH));
    assert!(empty.verify_nonexistence(RootHash(SPARSE_MERKLE_PLACEHOLDER_HASH), key));
    let too_long = SparseMerkleProof::new(None, vec![[0; 32]; 257]);
    assert!(!too_long.verify_nonexistence(RootHash(SPARSE_MERKLE_PLACEHOLDER_HASH), key));
}
