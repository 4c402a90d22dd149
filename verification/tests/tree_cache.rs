use jmt::hash::KeyHash;
use jmt::mock::MockTreeStore;
use jmt::types::nibble::nibble_path::NibblePath;
use jmt::node_type::{AugmentedNode, NodeKey};
use jmt::types::{Version, PRE_GENESIS_VERSION};
use jmt::storage::JmtError;
use jmt::tree_cache::TreeCache;
use rand::{rngs::OsRng, Rng};

fn random_leaf_with_key(next_version: Version) -> (AugmentedNode, NodeKey) {
    let key: [u8; 32] = OsRng.gen();
    let value: [u8; 32] = OsRng.gen();
    let key_hash: KeyHash = key.as_ref().into();
    let node = AugmentedNode::new_leaf(key_hash, value.to_vec());
    let node_key = NodeKey::new(next_version, NibblePath::new(key_hash.0.to_vec()));
    (node, node_key)
}

#[test]
fn test_get_node() {
    let next_version = 0;
    let mut db = MockTreeStore::default();

    let (node, node_key) = random_leaf_with_key(next_version);
    db.put_node(node_key.clone(), node.clone()).unwrap();

    let cache = TreeCache::new(&db, next_version).unwrap();
    assert_eq!(cache.get_node(&node_key).unwrap(), node);
}

#[test]
fn test_root_node() {
    let next_version = 0;
    let mut db = MockTreeStore::default();
    let (node, node_key) = random_leaf_with_key(next_version);
    db.put_node(node_key.clone(), node).unwrap();

    let mut cache = TreeCache::new(&db, next_version).unwrap();
    assert_eq!(*cache.get_root_node_key(), NodeKey::new_empty_path(0));

    cache.set_root_node_key(node_key.clone());

    assert_eq!(*cache.get_root_node_key(), node_key);
}

#[test]
fn test_pre_genesis() {
    let next_version = 0;
    let mut db = MockTreeStore::default();
    let pre_genesis_root_key = NodeKey::new_empty_path(PRE_GENESIS_VERSION);
    let (pre_genesis_only_node, _) = random_leaf_with_key(PRE_GENESIS_VERSION);
    db.put_node(pre_genesis_root_key.clone(), pre_genesis_only_node)
        .unwrap();

    let cache = TreeCache::new(&db, next_version).unwrap();
    assert_eq!(*cache.get_root_node_key(), pre_genesis_root_key);
}

#[test]
fn test_freeze_with_delete() {
    let next_version = 0;
    let db = MockTreeStore::default();
    let mut cache = TreeCache::new(&db, next_version).unwrap();

    assert_eq!(*cache.get_root_node_key(), NodeKey::new_empty_path(0));

    let (node1, node1_key) = random_leaf_with_key(next_version);
    cache.put_node(node1_key.clone(), node1.clone()).unwrap();
    let (node2, node2_key) = random_leaf_with_key(next_version);
    cache.put_node(node2_key.clone(), node2.clone()).unwrap();
    assert_eq!(cache.get_node(&node1_key).unwrap(), node1);
    assert_eq!(cache.get_node(&node2_key).unwrap(), node2);
    cache.freeze().unwrap();
    assert_eq!(cache.get_node(&node1_key).unwrap(), node1);
    assert_eq!(cache.get_node(&node2_key).unwrap(), node2);

    cache.delete_node(&node1_key, true /* is_leaf */);
    cache.freeze().unwrap();
    let (_, update_batch) = cache.into();
    assert_eq!(update_batch.node_batch.nodes().len(), 3);
    assert_eq!(update_batch.stale_node_index_batch.len(), 1);
}

#[test]
fn test_new_cache_starts_at_previous_version() {
    let db = MockTreeStore::default();
    let cache = TreeCache::new(&db, 7).unwrap();
    assert_eq!(*cache.get_root_node_key(), NodeKey::new_empty_path(6));
    assert_eq!(cache.next_version(), 7);
}

#[test]
fn test_get_node_missing() {
    let db = MockTreeStore::default();
    let cache = TreeCache::new(&db, 0).unwrap();
    let (_, node_key) = random_leaf_with_key(0);
    assert_eq!(
        cache.get_node(&node_key),
        Err(JmtError::MissingNode(node_key.clone()))
    );
    assert_eq!(cache.get_node_option(&node_key), Ok(None));
}

#[test]
fn test_put_node_twice_is_invalid() {
    let db = MockTreeStore::default();
    let mut cache = TreeCache::new(&db, 0).unwrap();
    let (node, node_key) = random_leaf_with_key(0);
    cache.put_node(node_key.clone(), node.clone()).unwrap();
    assert_eq!(
        cache.put_node(node_key.clone(), node.clone()),
        Err(JmtError::InvalidOperation)
    );
    assert_eq!(cache.get_node(&node_key).unwrap(), node);
}

#[test]
fn test_put_null_below_root_is_invalid() {
    let db = MockTreeStore::default();
    let mut cache = TreeCache::new(&db, 0).unwrap();
    let (_, node_key) = random_leaf_with_key(0);
    assert_eq!(
        cache.put_node(node_key, AugmentedNode::new_null()),
        Err(JmtError::InvalidOperation)
    );
    cache
        .put_node(NodeKey::new_empty_path(0), AugmentedNode::new_null())
        .unwrap();
}

#[test]
fn test_delete_keeps_node_readable_and_marks_once() {
    let db = MockTreeStore::default();
    let mut cache = TreeCache::new(&db, 3).unwrap();
    let (node, node_key) = random_leaf_with_key(3);
    cache.put_node(node_key.clone(), node.clone()).unwrap();
    cache.delete_node(&node_key, true);
    cache.delete_node(&node_key, true);
    assert_eq!(cache.get_node(&node_key).unwrap(), node);
    let (root, update_batch) = cache.into();
    assert_eq!(root, NodeKey::new_empty_path(2));
    assert_eq!(update_batch.node_batch.nodes().len(), 1);
    assert_eq!(update_batch.stale_node_index_batch.len(), 1);
    let mark = &update_batch.stale_node_index_batch.entries()[0];
    assert_eq!(mark.stale_since_version, 3);
    assert_eq!(mark.node_key, node_key);
}

#[test]
fn test_reads_go_to_frozen_then_live_then_store() {
    let mut db = MockTreeStore::default();
    let (stored, key) = random_leaf_with_key(0);
    db.put_node(key.clone(), stored.clone()).unwrap();
    let mut cache = TreeCache::new(&db, 1).unwrap();
    assert_eq!(cache.get_node(&key).unwrap(), stored);
    let (live, _) = random_leaf_with_key(0);
    cache.put_node(key.clone(), live.clone()).unwrap();
    assert_eq!(cache.get_node(&key).unwrap(), live);
    cache.set_root_node_key(NodeKey::new_empty_path(0));
    cache.freeze().unwrap();
    let (later, _) = random_leaf_with_key(0);
    cache.put_node(key.clone(), later).unwrap();
    assert_eq!(cache.get_node(&key).unwrap(), live);
}
