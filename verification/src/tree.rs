//! The tree: reading values and proofs at a version, and writing a batch
//! of values as a new version.
pub mod acceptance;
pub mod ics23_impl;

pub use crate::proofs::ExclusionProof;

use crate::hash::{
    lemma_lt_asymmetric, lemma_lt_off_path, lemma_lt_total, lemma_nibble_bound, lemma_nibble_order,
    sha256, KeyHash,
};
use crate::model::{
    bytes_view, child_key, extends, in_tree, lemma_frame, lemma_lookup_child, lemma_on_path_push,
    lemma_reaches_below, lemma_reaches_frame, lemma_some_key, lookup, lookup_node, node_wf, on_path,
    reaches, tree_wf,
};
use crate::node_type::{
    hash_views, lemma_first_slot_in, lemma_range_full, range_siblings, range_target, root_key,
    Child, InternalNode, Node, NodeKey, NodeKeyView, NodeView,
};
use crate::proofs::{
    fold_from, lemma_bits_of_path, lemma_fold_concat, lemma_key_bit_of_nibble, lemma_range_fold,
    lemma_range_same_bits, RootHash, SparseMerkleLeafNode, SparseMerkleProof,
};
use crate::storage::{JmtError, StaleNodeIndexView, TreeReader, UpdateBatch};
use crate::tree_cache::{stale_mark, start_root, TreeCache};
use crate::types::nibble::nibble_path::NibblePath;
use crate::types::Version;
use crate::update::{
    applied, apply_ops, counted, lemma_nodes_extend, opt_node, premises, slot_free, stale_free,
    subtree_counted, version_unused, winners, Op,
};
use vstd::prelude::*;

verus! {

/// A Jellyfish Merkle tree over a store of nodes.
pub struct JellyfishMerkleTree<'a, R: TreeReader> {
    pub reader: &'a R,
}

/// What a failed read says of the store: a missing node is not there, and
/// a failure of the store shows that the store can fail.
pub open spec fn read_failed<R: TreeReader>(reader: &R, e: JmtError) -> bool {
    match e {
        JmtError::MissingNode(k) => !reader.nodes().contains_key(k@),
        JmtError::Reader => !reader.reliable(),
        _ => false,
    }
}

/// Whether `r` is the failure that names the root of `version` as missing.
pub open spec fn root_missing<T>(r: Result<T, JmtError>, version: Version) -> bool {
    r matches Err(JmtError::MissingNode(k)) && k@ == root_key(version)
}

/// Whether the store answers every read and holds no root of `version`.
pub open spec fn lacks_root<R: TreeReader>(reader: &R, version: Version) -> bool {
    reader.reliable() && !reader.nodes().contains_key(root_key(version))
}

impl<'a, R: TreeReader> JellyfishMerkleTree<'a, R> {
    /// The tree over the nodes of `reader`.
    pub fn new(reader: &'a R) -> (r: Self)
        ensures
            r.reader == reader,
    {
        JellyfishMerkleTree { reader }
    }

    /// Reads a node that must be in the store.
    fn read_node(&self, node_key: &NodeKey) -> (r: Result<Node, JmtError>)
        ensures
            self.reader.reliable() && self.reader.nodes().contains_key(node_key@) ==> r is Ok,
            r matches Ok(n) ==> self.reader.nodes().contains_key(node_key@)
                && self.reader.nodes()[node_key@] == n@,
            r matches Err(e) ==> read_failed(self.reader, e) && (e matches JmtError::MissingNode(k)
                ==> k@ == node_key@),
    {
        match self.reader.get_node_option(node_key) {
            Ok(Some(node)) => Ok(node),
            Ok(None) => Err(JmtError::MissingNode(node_key.clone())),
            Err(e) => Err(e),
        }
    }

    /// The hash of the root that `version` wrote.
    pub fn get_root_hash(&self, version: Version) -> (r: Result<RootHash, JmtError>)
        ensures
            self.reader.reliable() && self.reader.nodes().contains_key(root_key(version)) ==>
                r is Ok,
            r matches Ok(h) ==> self.reader.nodes().contains_key(root_key(version)) && h.0@
                == self.reader.nodes()[root_key(version)].spec_hash(),
            r matches Err(e) ==> read_failed(self.reader, e) && (e matches JmtError::MissingNode(k)
                ==> k@ == root_key(version)),
    {
        let root_node_key = NodeKey::new_empty_path(version);
        match self.read_node(&root_node_key) {
            Ok(node) => Ok(RootHash(node.hash())),
            Err(e) => Err(e),
        }
    }

    /// The value of `key` in the tree of `version`, if it has one.
    pub fn get(&self, key: KeyHash, version: Version) -> (r: Result<Option<Vec<u8>>, JmtError>)
        ensures
            self.reader.reliable() && tree_wf(self.reader.nodes(), root_key(version)) ==> r is Ok,
            lacks_root(self.reader, version) ==> root_missing(r, version),
            r matches Ok(v) ==>
                bytes_view(v) == lookup(self.reader.nodes(), root_key(version), key),
            r matches Err(e) ==> read_failed(self.reader, e),
    {
        let ghost nodes = self.reader.nodes();
        let mut node_key = NodeKey::new_empty_path(version);
        let mut node = match self.read_node(&node_key) {
            Ok(node) => node,
            Err(e) => {
                return Err(e);
            },
        };
        let mut depth: usize = 0;
        assert(key.nibbles(0) =~= Seq::<u8>::empty());
        loop
            invariant
                depth <= 64,
                nodes == self.reader.nodes(),
                nodes.contains_key(root_key(version)),
                node_key@.path == key.nibbles(depth as int),
                nodes.contains_key(node_key@),
                nodes[node_key@] == node@,
                lookup(nodes, root_key(version), key) ==
                    lookup_node(nodes, node@, depth as int, key),
                tree_wf(nodes, root_key(version)) ==> node_wf(nodes, node@, node_key@.path),
            decreases 64 - depth,
        {
            match &node {
                Node::Null => {
                    return Ok(None);
                },
                Node::Leaf(leaf) => {
                    return if leaf.key_hash().same(&key) {
                        Ok(Some(leaf.value().clone()))
                    } else {
                        Ok(None)
                    };
                },
                Node::Internal(internal) => {
                    if depth >= 64 {
                        return Ok(None);
                    }
                    let nibble = key.get_nibble(depth);
                    match internal.child(nibble) {
                        None => {
                            return Ok(None);
                        },
                        Some(child) => {
                            let child_node_key = node_key.gen_child_node_key(child.version, nibble);
                            proof {
                                assert(key.nibbles(depth + 1) =~= key.nibbles(depth as int).push(
                                    nibble,
                                ));
                                assert(child_node_key@ == child_key(
                                    child,
                                    node_key@.path,
                                    nibble as int,
                                ));
                            }
                            let child_node = match self.read_node(&child_node_key) {
                                Ok(n) => n,
                                Err(e) => {
                                    return Err(e);
                                },
                            };
                            node_key = child_node_key;
                            node = child_node;
                            depth += 1;
                        },
                    }
                },
            }
        }
    }

    /// The value and proof for `key` in the subtree under `node`, which
    /// stands at depth `depth` on the way to `key`.
    fn prove_at(&self, node_key: &NodeKey, node: &Node, depth: usize, key: KeyHash) -> (r: Result<
        (Option<Vec<u8>>, SparseMerkleProof),
        JmtError,
    >)
        requires
            depth <= 64,
            node_key@.path == key.nibbles(depth as int),
        ensures
            self.reader.reliable() && node_wf(self.reader.nodes(), node@, node_key@.path) ==>
                r is Ok,
            r matches Ok(found) ==> {
                &&& bytes_view(found.0) ==
                    lookup_node(self.reader.nodes(), node@, depth as int, key)
                &&& proof_is(found.1, spec_proof(self.reader.nodes(), node@, depth as int, key))
                &&& found.1.siblings@.len() <= 4 * (64 - depth)
                &&& !(node@ is Internal) ==> found.1.siblings@.len() == 0
                &&& found.0 matches Some(v) ==> found.1.leaf matches Some(l) && l.key_hash == key
                    && l.value_hash@ == sha256(v@)
                &&& found.0 is None ==> (found.1.leaf matches Some(l) ==> l.key_hash != key)
                &&& node_wf(self.reader.nodes(), node@, node_key@.path) ==> fold_from(
                    found.1.spec_bottom_hash(),
                    hash_views(found.1.siblings@),
                    key,
                    4 * depth,
                ) == node@.spec_hash()
                &&& node_wf(self.reader.nodes(), node@, node_key@.path) ==> (
                found.1.leaf matches Some(l) ==> forall|i: int|
                    0 <= i < 4 * depth + found.1.siblings@.len() ==>
                        l.key_hash.bit(i) == key.bit(i))
            },
            r matches Err(e) ==> match e {
                JmtError::InvalidOperation => !node_wf(self.reader.nodes(), node@, node_key@.path),
                _ => read_failed(self.reader, e),
            },
        decreases 64 - depth,
    {
        let ghost nodes = self.reader.nodes();
        match node {
            Node::Null => {
                let none: Vec<[u8; 32]> = Vec::new();
                assert(hash_views(none@) =~= Seq::<Seq<u8>>::empty());
                Ok((None, SparseMerkleProof::new(None, none)))
            },
            Node::Leaf(leaf) => {
                let proof_leaf = SparseMerkleLeafNode::new(leaf.key_hash(), leaf.value_hash());
                let none: Vec<[u8; 32]> = Vec::new();
                assert(hash_views(none@) =~= Seq::<Seq<u8>>::empty());
                let value = if leaf.key_hash().same(&key) {
                    Some(leaf.value().clone())
                } else {
                    None
                };
                proof {
                    if node_wf(nodes, node@, node_key@.path) {
                        assert forall|i: int| 0 <= i < 4 * depth implies leaf@.key_hash.bit(i)
                            == key.bit(i) by {
                            lemma_bits_of_path(leaf@.key_hash, key, depth as int, i);
                        }
                    }
                }
                Ok((value, SparseMerkleProof::new(Some(proof_leaf), none)))
            },
            Node::Internal(internal) => {
                if depth >= 64 {
                    return Err(JmtError::InvalidOperation);
                }
                let nibble = key.get_nibble(depth);
                let (target, siblings) = internal.get_child_with_siblings(nibble);
                proof {
                    lemma_range_fold(internal.children@, 0, 16, key, depth as int);
                }
                let slot = match target {
                    None => {
                        return Ok((None, SparseMerkleProof::new(None, siblings)));
                    },
                    Some(slot) => slot,
                };
                let child = match internal.child(slot) {
                    Some(child) => child,
                    None => {
                        return Err(JmtError::InvalidOperation);
                    },
                };
                let child_node_key = node_key.gen_child_node_key(child.version, slot);
                assert(child_node_key@ == child_key(child, node_key@.path, slot as int));
                let child_node = match self.read_node(&child_node_key) {
                    Ok(n) => n,
                    Err(e) => {
                        return Err(e);
                    },
                };
                if slot != nibble {
                    return match &child_node {
                        Node::Leaf(leaf) => {
                            let proof_leaf = SparseMerkleLeafNode::new(
                                leaf.key_hash(),
                                leaf.value_hash(),
                            );
                            proof {
                                if node_wf(nodes, node@, node_key@.path) {
                                    let other = leaf@.key_hash;
                                    let path = node_key@.path;
                                    assert(internal.children@[slot as int] == Some(child));
                                    assert(node_wf(nodes, child_node@, path.push(slot)));
                                    assert(path.push(slot).len() == depth + 1);
                                    assert(path.push(slot)[depth as int] == slot);
                                    assert(other.nibbles(depth + 1)[depth as int] == slot);
                                    assert(other.nibble(depth as int) == slot);
                                    lemma_on_path_push(other, path, slot);
                                    assert forall|i: int|
                                        0 <= i < 4 * depth + siblings@.len() implies other.bit(i)
                                        == key.bit(i) by {
                                        if i < 4 * depth {
                                            lemma_bits_of_path(
                                                other,
                                                key,
                                                depth as int,
                                                i,
                                            );
                                        } else {
                                            let t = i - 4 * depth;
                                            assert(hash_views(siblings@).len() == siblings@.len());
                                            lemma_range_same_bits(
                                                internal.children@,
                                                0,
                                                16,
                                                nibble as int,
                                                t,
                                            );
                                            lemma_key_bit_of_nibble(
                                                other,
                                                depth as int,
                                                t,
                                            );
                                            lemma_key_bit_of_nibble(
                                                key,
                                                depth as int,
                                                t,
                                            );
                                        }
                                    }
                                }
                            }
                            if leaf.key_hash().same(&key) {
                                Err(JmtError::InvalidOperation)
                            } else {
                                Ok((None, SparseMerkleProof::new(Some(proof_leaf), siblings)))
                            }
                        },
                        _ => Err(JmtError::InvalidOperation),
                    };
                }
                proof {
                    assert(key.nibbles(depth + 1) =~= key.nibbles(depth as int).push(nibble));
                }
                let (value, below) = match self.prove_at(
                    &child_node_key,
                    &child_node,
                    depth + 1,
                    key,
                ) {
                    Ok(found) => found,
                    Err(e) => {
                        return Err(e);
                    },
                };
                let leaf = below.leaf();
                let mut all = below.siblings;
                let ghost lower = hash_views(all@);
                let ghost upper = hash_views(siblings@);
                let mut i: usize = 0;
                while i < siblings.len()
                    invariant
                        i <= siblings@.len(),
                        hash_views(all@) == lower + upper.take(i as int),
                        upper == hash_views(siblings@),
                        all@.len() == lower.len() + i,
                    decreases siblings@.len() - i,
                {
                    let ghost before = all@;
                    all.push(siblings[i]);
                    assert(hash_views(all@) =~= hash_views(before).push(siblings@[i as int]@));
                    assert(upper.take(i + 1) =~= upper.take(i as int).push(upper[i as int]));
                    i += 1;
                    assert(hash_views(all@) =~= lower + upper.take(i as int));
                }
                proof {
                    assert(upper.take(siblings@.len() as int) =~= upper);
                    if node_wf(nodes, node@, node_key@.path) {
                        let bottom = below.spec_bottom_hash();
                        if child_node@ is Internal {
                            lemma_range_full(internal.children@, 0, 16, nibble as int);
                            lemma_fold_concat(bottom, lower, upper, key, 4 * depth);
                        } else {
                            assert(lower + upper =~= upper);
                        }
                    }
                }
                Ok((value, SparseMerkleProof::new(leaf, all)))
            },
        }
    }

    /// The value of `key` in the tree of `version`, with a proof: of the
    /// value where there is one, else of its absence.
    pub fn get_with_proof(&self, key: KeyHash, version: Version) -> (r: Result<
        (Option<Vec<u8>>, SparseMerkleProof),
        JmtError,
    >)
        ensures
            self.reader.reliable() && tree_wf(self.reader.nodes(), root_key(version)) ==> r is Ok,
            lacks_root(self.reader, version) ==> root_missing(r, version),
            r matches Ok(found) ==> {
                &&& bytes_view(found.0) == lookup(self.reader.nodes(), root_key(version), key)
                &&& proof_is(found.1, tree_proof(self.reader.nodes(), version, key))
                &&& found.1.siblings@.len() <= 256
                &&& found.0 matches Some(v) ==> found.1.leaf matches Some(l) && l.key_hash == key
                    && l.value_hash@ == sha256(v@)
                &&& found.0 is None ==> (found.1.leaf matches Some(l) ==> l.key_hash != key)
                &&& tree_wf(self.reader.nodes(), root_key(version)) ==> found.1.spec_root_for(key)
                    == self.reader.nodes()[root_key(version)].spec_hash()
                &&& tree_wf(self.reader.nodes(), root_key(version)) ==> match found.0 {
                    Some(v) => found.1.shows_existence(
                        self.reader.nodes()[root_key(version)].spec_hash(),
                        key,
                        v@,
                    ),
                    None => found.1.shows_absence(
                        self.reader.nodes()[root_key(version)].spec_hash(),
                        key,
                    ),
                }
            },
            r matches Err(e) ==> match e {
                JmtError::InvalidOperation => !tree_wf(self.reader.nodes(), root_key(version)),
                _ => read_failed(self.reader, e),
            },
    {
        let root_node_key = NodeKey::new_empty_path(version);
        let root_node = match self.read_node(&root_node_key) {
            Ok(node) => node,
            Err(e) => {
                return Err(e);
            },
        };
        assert(key.nibbles(0) =~= Seq::<u8>::empty());
        self.prove_at(&root_node_key, &root_node, 0, key)
    }
    /// The key hash of the least leaf under `node`, or of the greatest
    /// where `greatest` is set.
    fn extreme_leaf(&self, node_key: NodeKey, node: Node, greatest: bool) -> (r: Result<
        KeyHash,
        JmtError,
    >)
        requires
            node_key@.path.len() <= 64,
        ensures
            self.reader.reliable() && !(node@ is Null) && node_wf(
                self.reader.nodes(),
                node@,
                node_key@.path,
            ) ==> r is Ok,
            r matches Ok(k) ==> (node_wf(self.reader.nodes(), node@, node_key@.path) ==> extreme_in(
                self.reader.nodes(),
                node@,
                node_key@.path,
                k,
                greatest,
            )),
            r matches Err(e) ==> match e {
                JmtError::InvalidOperation => node@ is Null || !node_wf(
                    self.reader.nodes(),
                    node@,
                    node_key@.path,
                ),
                _ => read_failed(self.reader, e),
            },
    {
        let ghost nodes = self.reader.nodes();
        let ghost top = node@;
        let ghost top_path = node_key@.path;
        let ghost w = node_wf(nodes, top, top_path);
        let mut cur_key = node_key;
        let mut cur = node;
        loop
            invariant
                nodes == self.reader.nodes(),
                top == node@,
                top_path == node_key@.path,
                cur_key@.path.len() <= 64,
                top_path.len() <= cur_key@.path.len(),
                w == node_wf(nodes, top, top_path),
                w && cur@ is Null ==> top is Null,
                w ==> node_wf(nodes, cur@, cur_key@.path),
                w ==> forall|k: KeyHash| #[trigger]
                    on_path(k, cur_key@.path) ==> on_path(k, top_path) && lookup_node(
                        nodes,
                        top,
                        top_path.len() as int,
                        k,
                    ) == lookup_node(nodes, cur@, cur_key@.path.len() as int, k),
                w ==> forall|other: KeyHash| #[trigger]
                    lookup_node(nodes, top, top_path.len() as int, other) is Some && on_path(
                        other,
                        top_path,
                    ) && !on_path(other, cur_key@.path) ==> beyond_all(
                        other,
                        cur_key@.path,
                        greatest,
                    ),
            decreases 64 - cur_key@.path.len(),
        {
            match &cur {
                Node::Null => {
                    return Err(JmtError::InvalidOperation);
                },
                Node::Leaf(leaf) => {
                    proof {
                        if w {
                            let k = leaf@.key_hash;
                            assert(on_path(k, cur_key@.path));
                            assert forall|other: KeyHash| #[trigger]
                                lookup_node(nodes, top, top_path.len() as int, other) is Some
                                    && on_path(other, top_path) implies other == k || on_side(
                                other,
                                k,
                                greatest,
                            ) by {
                                if !on_path(other, cur_key@.path) {
                                    assert(beyond_all(other, cur_key@.path, greatest));
                                }
                            }
                        }
                    }
                    return Ok(leaf.key_hash());
                },
                Node::Internal(internal) => {
                    if cur_key.nibble_path().num_nibbles() >= 64 {
                        return Err(JmtError::InvalidOperation);
                    }
                    let slot = if greatest {
                        internal.child_before(16)
                    } else {
                        internal.child_from(0)
                    };
                    proof {
                        lemma_first_slot_in(internal.children@, 0, 16);
                    }
                    let slot = match slot {
                        Some(slot) => slot,
                        None => {
                            return Err(JmtError::InvalidOperation);
                        },
                    };
                    let child = match internal.child(slot) {
                        Some(child) => child,
                        None => {
                            return Err(JmtError::InvalidOperation);
                        },
                    };
                    let child_node_key = cur_key.gen_child_node_key(child.version, slot);
                    assert(child_node_key@ == child_key(child, cur_key@.path, slot as int));
                    let child_node = match self.read_node(&child_node_key) {
                        Ok(n) => n,
                        Err(e) => {
                            return Err(e);
                        },
                    };
                    proof {
                        if w {
                            let path = cur_key@.path;
                            let d = path.len() as int;
                            assert(internal.children@[slot as int] == Some(child));
                            assert forall|k: KeyHash| #[trigger]
                                on_path(k, path.push(slot)) implies on_path(k, top_path)
                                && lookup_node(nodes, top, top_path.len() as int, k) == lookup_node(
                                nodes,
                                child_node@,
                                d + 1,
                                k,
                            ) by {
                                lemma_on_path_push(k, path, slot);
                                assert(on_path(k, path));
                                assert(k.nibbles(d) == path);
                            }
                            assert forall|other: KeyHash| #[trigger]
                                lookup_node(nodes, top, top_path.len() as int, other) is Some
                                    && on_path(other, top_path) && !on_path(
                                    other,
                                    path.push(slot),
                                ) implies beyond_all(other, path.push(slot), greatest) by {
                                assert forall|k2: KeyHash| #[trigger]
                                    on_path(k2, path.push(slot)) implies on_side(
                                    other,
                                    k2,
                                    greatest,
                                ) by {
                                    lemma_on_path_push(k2, path, slot);
                                    if !on_path(other, path) {
                                        assert(beyond_all(other, path, greatest));
                                        assert(on_path(k2, path));
                                    } else {
                                        lemma_on_path_push(other, path, slot);
                                        lemma_lookup_child(
                                            nodes,
                                            *internal,
                                            path,
                                            other,
                                        );
                                        assert(other.nibbles(d) == k2.nibbles(d));
                                        if greatest {
                                            lemma_nibble_order(other, k2, d);
                                        } else {
                                            lemma_nibble_order(k2, other, d);
                                        }
                                    }
                                }
                            }
                        }
                    }
                    cur_key = child_node_key;
                    cur = child_node;
                },
            }
        }
    }

    /// The leaf next to `key` on one side: the leaf `leaf` at which the way
    /// to `key` ended, or the extreme leaf of the subtree `subtree` beside
    /// the way.
    fn resolve_side(
        &self,
        key: KeyHash,
        version: Version,
        subtree: Option<NodeKey>,
        leaf: Option<KeyHash>,
        lower: bool,
        Ghost(cov): Ghost<Seq<u8>>,
        Ghost(only): Ghost<Option<KeyHash>>,
    ) -> (r: Result<Option<KeyHash>, JmtError>)
        requires
            subtree matches Some(sk) ==> sk@.path.len() <= 64,
        ensures
            self.reader.reliable() && (subtree matches Some(sk) ==> side_ok(
                self.reader.nodes(),
                version,
                key,
                sk@,
                lower,
            )) ==> r is Ok,
            r matches Ok(found) ==> (side_known(
                self.reader.nodes(),
                version,
                key,
                key_view(subtree),
                leaf,
                lower,
                cov,
                only,
            ) ==> nearest(self.reader.nodes(), version, key, found, lower)),
            r matches Err(e) ==> match e {
                JmtError::InvalidOperation => !(subtree matches Some(sk) ==> side_ok(
                    self.reader.nodes(),
                    version,
                    key,
                    sk@,
                    lower,
                )),
                _ => read_failed(self.reader, e),
            },
    {
        let ghost nodes = self.reader.nodes();
        let ghost root = root_key(version);
        let ghost known = side_known(nodes, version, key, key_view(subtree), leaf, lower, cov, only);
        if let Some(k) = leaf {
            proof {
                if known {
                    assert forall|other: KeyHash| #[trigger]
                        lookup(nodes, root, other) is Some && on_side(
                            other,
                            key,
                            lower,
                        ) implies other == k || on_side(other, k, lower) by {
                        if !on_path(other, cov) {
                            lemma_lt_off_path(other, key, k, cov.len() as int);
                        }
                    }
                }
            }
            return Ok(leaf);
        }
        match subtree {
            None => Ok(None),
            Some(sk) => {
                let ghost skv = sk@;
                let node = match self.read_node(&sk) {
                    Ok(n) => n,
                    Err(e) => {
                        return Err(e);
                    },
                };
                let ghost nv = node@;
                match self.extreme_leaf(sk, node, lower) {
                    Ok(k) => {
                        proof {
                            if known {
                                assert(extreme_in(nodes, nv, skv.path, k, lower));
                                assert(on_path(k, skv.path));
                                assert forall|other: KeyHash| #[trigger]
                                    lookup(nodes, root, other) is Some && on_side(
                                        other,
                                        key,
                                        lower,
                                    ) implies other == k || on_side(other, k, lower) by {
                                    if on_path(other, skv.path) {
                                        assert(lookup_node(
                                            nodes,
                                            nv,
                                            skv.path.len() as int,
                                            other,
                                        ) is Some);
                                    } else {
                                        assert(beyond_all(other, skv.path, lower));
                                    }
                                }
                            }
                        }
                        Ok(Some(k))
                    },
                    Err(e) => Err(e),
                }
            },
        }
    }

    /// The key hashes of the leaves next to `key` in the tree of `version`:
    /// the greatest below it and the least above it, where there is one.
    fn search_for_closest_neighbors(&self, key: KeyHash, version: Version) -> (r: Result<
        (Option<KeyHash>, Option<KeyHash>),
        JmtError,
    >)
        ensures
            self.reader.reliable() && tree_wf(self.reader.nodes(), root_key(version)) ==> r is Ok,
            r matches Ok(found) ==> (tree_wf(self.reader.nodes(), root_key(version)) ==>
                neighbors_ok(
                self.reader.nodes(),
                version,
                key,
                found.0,
                found.1,
            )),
            r matches Err(e) ==> match e {
                JmtError::InvalidOperation => !tree_wf(self.reader.nodes(), root_key(version)),
                _ => read_failed(self.reader, e),
            },
    {
        let ghost nodes = self.reader.nodes();
        let ghost root = root_key(version);
        let ghost w = tree_wf(nodes, root);
        let mut node_key = NodeKey::new_empty_path(version);
        let mut node = match self.read_node(&node_key) {
            Ok(node) => node,
            Err(e) => {
                return Err(e);
            },
        };
        let mut depth: usize = 0;
        let mut left_subtree: Option<NodeKey> = None;
        let mut right_subtree: Option<NodeKey> = None;
        let mut left: Option<KeyHash> = None;
        let mut right: Option<KeyHash> = None;
        let ghost mut cov: Seq<u8> = Seq::empty();
        let ghost mut only: Option<KeyHash> = None;
        assert(key.nibbles(0) =~= Seq::<u8>::empty());
        proof {
            assert forall|other: KeyHash| on_path(other, cov) by {
                assert(other.nibbles(0) =~= Seq::<u8>::empty());
            }
        }
        let mut done = false;
        while !done
            invariant
                depth <= 64,
                nodes == self.reader.nodes(),
                root == root_key(version),
                w == tree_wf(nodes, root),
                node_key@.path == key.nibbles(depth as int),
                on_path(key, cov),
                cov.len() <= 64,
                !done ==> cov == node_key@.path,
                left_subtree matches Some(k) ==> k@.path.len() <= 64,
                right_subtree matches Some(k) ==> k@.path.len() <= 64,
                w ==> node_wf(nodes, node@, node_key@.path),
                w ==> forall|k: KeyHash| #[trigger]
                    on_path(k, node_key@.path) ==> lookup(nodes, root, k) == lookup_node(
                        nodes,
                        node@,
                        depth as int,
                        k,
                    ),
                w ==> (left_subtree matches Some(sk) ==> side_ok(nodes, version, key, sk@, true)),
                w ==> (right_subtree matches Some(sk) ==> side_ok(nodes, version, key, sk@, false)),
                w ==> covers(nodes, version, key, cov, key_view(left_subtree), true),
                w ==> covers(nodes, version, key, cov, key_view(right_subtree), false),
                !done ==> left is None && right is None,
                w && done ==> ended(nodes, version, key, cov, only, left, true),
                w && done ==> ended(nodes, version, key, cov, only, right, false),
            decreases 64 - depth, (if done {
                    0int
                } else {
                    1int
                }),
        {
            match &node {
                Node::Null => {
                    proof {
                        only = None;
                    }
                    done = true;
                },
                Node::Leaf(leaf) => {
                    let found = leaf.key_hash();
                    if found.lt(&key) {
                        left = Some(found);
                    } else if key.lt(&found) {
                        right = Some(found);
                    }
                    proof {
                        only = Some(found);
                        if found.spec_lt(key) {
                            lemma_lt_asymmetric(found, key);
                        }
                        if w {
                            assert(on_path(found, node_key@.path));
                            assert(lookup(nodes, root, found) == lookup_node(
                                nodes,
                                node@,
                                depth as int,
                                found,
                            ));
                        }
                    }
                    done = true;
                },
                Node::Internal(internal) => {
                    if depth >= 64 {
                        return Err(JmtError::InvalidOperation);
                    }
                    let nibble = key.get_nibble(depth);
                    let ghost path = node_key@.path;
                    let ghost old_left = key_view(left_subtree);
                    let ghost old_right = key_view(right_subtree);
                    let before = internal.child_before(nibble);
                    let after = internal.child_from(nibble + 1);
                    if let Some(slot) = before {
                        if let Some(child) = internal.child(slot) {
                            let sk = node_key.gen_child_node_key(child.version, slot);
                            proof {
                                if w {
                                    lemma_side(nodes, version, key, node@, path, child, slot);
                                }
                            }
                            left_subtree = Some(sk);
                        }
                    }
                    if let Some(slot) = after {
                        if let Some(child) = internal.child(slot) {
                            let sk = node_key.gen_child_node_key(child.version, slot);
                            proof {
                                if w {
                                    lemma_side(nodes, version, key, node@, path, child, slot);
                                }
                            }
                            right_subtree = Some(sk);
                        }
                    }
                    proof {
                        lemma_on_path_push(key, path, nibble);
                        if w {
                            lemma_covers_step(
                                nodes,
                                version,
                                key,
                                *internal,
                                path,
                                old_left,
                                key_view(left_subtree),
                                true,
                            );
                            lemma_covers_step(
                                nodes,
                                version,
                                key,
                                *internal,
                                path,
                                old_right,
                                key_view(right_subtree),
                                false,
                            );
                        }
                        cov = path.push(nibble);
                    }
                    match internal.child(nibble) {
                        None => {
                            proof {
                                only = None;
                                if w {
                                    assert forall|other: KeyHash| #[trigger]
                                        lookup(nodes, root, other) is Some implies !on_path(
                                        other,
                                        cov,
                                    ) by {
                                        if on_path(other, cov) {
                                            lemma_on_path_push(other, path, nibble);
                                            assert(on_path(other, path));
                                            lemma_lookup_child(
                                                nodes,
                                                *internal,
                                                path,
                                                other,
                                            );
                                        }
                                    }
                                }
                            }
                            done = true;
                        },
                        Some(child) => {
                            let child_node_key = node_key.gen_child_node_key(child.version, nibble);
                            assert(child_node_key@ == child_key(child, path, nibble as int));
                            let child_node = match self.read_node(&child_node_key) {
                                Ok(n) => n,
                                Err(e) => {
                                    return Err(e);
                                },
                            };
                            proof {
                                assert(key.nibbles(depth + 1) =~= path.push(nibble));
                                if w {
                                    assert(internal.children@[nibble as int] == Some(child));
                                    assert forall|k: KeyHash| #[trigger]
                                        on_path(k, path.push(nibble)) implies lookup(nodes, root, k)
                                        == lookup_node(nodes, child_node@, depth + 1, k) by {
                                        lemma_on_path_push(k, path, nibble);
                                        assert(on_path(k, path));
                                        assert(k.nibbles(depth as int) == path);
                                    }
                                }
                            }
                            node_key = child_node_key;
                            node = child_node;
                            depth += 1;
                        },
                    }
                },
            }
        }
        let left = match self.resolve_side(
            key,
            version,
            left_subtree,
            left,
            true,
            Ghost(cov),
            Ghost(only),
        ) {
            Ok(found) => found,
            Err(e) => {
                return Err(e);
            },
        };
        let right = match self.resolve_side(
            key,
            version,
            right_subtree,
            right,
            false,
            Ghost(cov),
            Ghost(only),
        ) {
            Ok(found) => found,
            Err(e) => {
                return Err(e);
            },
        };
        Ok((left, right))
    }

    /// The proof of the leaf with key hash `neighbor`, which stands next to
    /// `key` on the side that `lower` names.
    fn neighbor_proof(&self, neighbor: KeyHash, key: KeyHash, version: Version, lower: bool) -> (r:
        Result<SparseMerkleProof, JmtError>)
        ensures
            self.reader.reliable() && tree_wf(self.reader.nodes(), root_key(version))
                && neighbor_key_ok(self.reader.nodes(), version, key, neighbor, lower) ==> r is Ok,
            r matches Ok(p) ==>
                p.leaf is Some && p.leaf.unwrap().key_hash == neighbor && neighbor_ok(
                self.reader.nodes(),
                version,
                key,
                p,
                lower,
            ),
            r matches Err(e) ==> match e {
                JmtError::InvalidOperation => !tree_wf(self.reader.nodes(), root_key(version))
                    || !neighbor_key_ok(self.reader.nodes(), version, key, neighbor, lower),
                JmtError::MissingValue => !neighbor_key_ok(
                    self.reader.nodes(),
                    version,
                    key,
                    neighbor,
                    lower,
                ),
                _ => read_failed(self.reader, e),
            },
    {
        let ordered = if lower {
            neighbor.lt(&key)
        } else {
            key.lt(&neighbor)
        };
        if !ordered {
            return Err(JmtError::InvalidOperation);
        }
        match self.get_with_proof(neighbor, version) {
            Ok((Some(_), proof)) => Ok(proof),
            Ok((None, _)) => Err(JmtError::MissingValue),
            Err(e) => Err(e),
        }
    }

    /// The value of `key` in the tree of `version` with a proof of it, or,
    /// where the key has no value, a proof of that from the leaves next to
    /// the key. The empty tree has no such leaves: that is an error.
    pub fn get_with_exclusion_proof(&self, key: KeyHash, version: Version) -> (r: Result<
        Result<(Vec<u8>, SparseMerkleProof), ExclusionProof>,
        JmtError,
    >)
        ensures
            self.reader.reliable() && tree_wf(self.reader.nodes(), root_key(version)) && (lookup(
                self.reader.nodes(),
                root_key(version),
                key,
            ) is Some || !(self.reader.nodes()[root_key(version)] is Null)) ==> r is Ok,
            self.reader.reliable() && tree_wf(self.reader.nodes(), root_key(version)) && (
            self.reader.nodes()[root_key(version)] is Null) ==> (r matches Err(e) && e
                == JmtError::InvalidOperation),
            lacks_root(self.reader, version) ==> root_missing(r, version),
            r matches Ok(Ok(found)) ==> {
                &&& lookup(self.reader.nodes(), root_key(version), key) == Some(found.0@)
                &&& proof_is(found.1, tree_proof(self.reader.nodes(), version, key))
                &&& found.1.siblings@.len() <= 256
                &&& found.1.leaf is Some
                &&& found.1.leaf.unwrap().key_hash == key
                &&& found.1.leaf.unwrap().value_hash@ == sha256(found.0@)
                &&& tree_wf(self.reader.nodes(), root_key(version)) ==> found.1.spec_root()
                    == self.reader.nodes()[root_key(version)].spec_hash()
            },
            r matches Ok(Err(excl)) ==> {
                &&& lookup(self.reader.nodes(), root_key(version), key) is None
                &&& exclusion_ok(self.reader.nodes(), version, key, excl)
            },
            r matches Err(e) ==> match e {
                JmtError::InvalidOperation => !tree_wf(self.reader.nodes(), root_key(version)) || (
                self.reader.nodes()[root_key(version)] is Null),
                JmtError::MissingValue => !tree_wf(self.reader.nodes(), root_key(version)),
                _ => read_failed(self.reader, e),
            },
    {
        match self.get_with_proof(key, version) {
            Ok((Some(value), proof)) => {
                return Ok(Ok((value, proof)));
            },
            Ok((None, _)) => {},
            Err(e) => {
                return Err(e);
            },
        }
        let (left, right) = match self.search_for_closest_neighbors(key, version) {
            Ok(found) => found,
            Err(e) => {
                return Err(e);
            },
        };
        proof {
            let nodes = self.reader.nodes();
            let root = root_key(version);
            if tree_wf(nodes, root) && !(nodes[root] is Null) {
                let some = lemma_some_key(nodes, nodes[root], root.path);
                assert(lookup(nodes, root, some) is Some);
                lemma_lt_total(some, key);
                assert(on_side(some, key, true) || on_side(some, key, false));
                assert(left is Some || right is Some);
            }
        }
        match (left, right) {
            (None, None) => Err(JmtError::InvalidOperation),
            (Some(l), None) => match self.neighbor_proof(l, key, version, true) {
                Ok(p) => Ok(Err(ExclusionProof::Rightmost { rightmost_left_proof: p })),
                Err(e) => Err(e),
            },
            (None, Some(r)) => match self.neighbor_proof(r, key, version, false) {
                Ok(p) => Ok(Err(ExclusionProof::Leftmost { leftmost_right_proof: p })),
                Err(e) => Err(e),
            },
            (Some(l), Some(r)) => {
                let lp = match self.neighbor_proof(l, key, version, true) {
                    Ok(p) => p,
                    Err(e) => {
                        return Err(e);
                    },
                };
                match self.neighbor_proof(r, key, version, false) {
                    Ok(rp) => Ok(
                        Err(
                            ExclusionProof::Middle {
                                leftmost_right_proof: rp,
                                rightmost_left_proof: lp,
                            },
                        ),
                    ),
                    Err(e) => Err(e),
                }
            },
        }
    }

    /// Writes the values of `value_set` into the tree as version `version`:
    /// an entry with a value puts it under the key, one without removes the
    /// key; of two entries with one key the later counts. Returns the hash
    /// of the new root and what is to be written to the store.
    pub fn put_value_set(&self, value_set: Vec<Op>, version: Version) -> (r: Result<
        (RootHash, UpdateBatch),
        JmtError,
    >)
        ensures
            put_premises(self.reader.nodes(), self.reader.reliable(), version) ==> r is Ok,
            self.reader.reliable() && version != 0 && !self.reader.nodes().contains_key(
                start_root(self.reader.nodes(), version),
            ) ==> (r matches Err(JmtError::MissingNode(k)) && k@ == start_root(
                self.reader.nodes(),
                version,
            )),
            r matches Ok(out) ==>
                (put_premises(self.reader.nodes(), self.reader.reliable(), version)
                ==> put_ok(self.reader.nodes(), value_set@, version, out.0, out.1)),
            r matches Err(e) ==> match e {
                JmtError::MissingNode(k) => !self.reader.nodes().contains_key(k@),
                JmtError::Reader => !self.reader.reliable(),
                JmtError::InvalidOperation => !put_premises(
                    self.reader.nodes(),
                    self.reader.reliable(),
                    version,
                ),
                _ => false,
            },
    {
        let ghost store = self.reader.nodes();
        let ghost pp = put_premises(store, self.reader.reliable(), version);
        let mut cache = match TreeCache::new(self.reader, version) {
            Ok(c) => c,
            Err(e) => {
                return Err(e);
            },
        };
        let idxs = winners(&value_set);
        let start = cache.get_root_node_key().clone();
        let ghost c0 = cache;
        proof {
            assert(cache.written() =~= Map::<NodeKeyView, NodeView>::empty());
            assert(cache.nodes() =~= store);
        }
        let existing = match cache.get_node_option(&start) {
            Ok(o) => o,
            Err(e) => {
                return Err(e);
            },
        };
        match &existing {
            Some(n) => {
                cache.delete_node(&start, n.is_leaf());
            },
            None => {
                if version != 0 {
                    return Err(JmtError::MissingNode(start));
                }
            },
        }
        let path = NibblePath::empty();
        let ghost c1 = cache;
        let ghost base = opt_node(existing);
        proof {
            assert(cache.written() =~= Map::<NodeKeyView, NodeView>::empty());
            assert(cache.nodes() =~= store);
            assert(slot_free(cache.live(), cache.version(), path@));
            assert(stale_free(cache.stale(), path@, true));
            if pp {
                assert(premises(&c1, base, path@));
            }
        }
        let made = match apply_ops(&mut cache, &value_set, &idxs, existing, &path) {
            Ok(m) => m,
            Err(e) => {
                return Err(e);
            },
        };
        let node = match made {
            Some(n) => n,
            None => Node::Null,
        };
        let ghost c2 = cache;
        let ghost node_view = node@;
        let root_hash = RootHash(node.hash());
        let new_root = NodeKey::new_empty_path(version);
        proof {
            if cache.live().contains_key(new_root@) {
                assert(!c1.live().contains_key(new_root@));
            }
        }
        match cache.put_node(new_root.clone(), node) {
            Ok(()) => {},
            Err(e) => {
                return Err(e);
            },
        }
        cache.set_root_node_key(new_root);
        let ghost c3 = cache;
        proof {
            assert(c3.written() =~= c3.live());
            assert(c3.nodes().contains_key(root_key(version)));
        }
        match cache.freeze() {
            Ok(()) => {},
            Err(e) => {
                return Err(e);
            },
        }
        let ghost c4 = cache;
        let (_, batch) = cache.into();
        proof {
            let after = store.union_prefer_right(batch.node_batch@);
            assert(c4.written() =~= c4.frozen());
            assert(batch.node_batch@ == c3.live());
            assert(after == c3.nodes());
            assert forall|k: NodeKeyView| #[trigger]
                batch.node_batch@.contains_key(k) implies k.version == version by {
                if k != root_key(version) {
                    assert(c2.live().contains_key(k) && !c1.live().contains_key(k));
                }
            }
            if pp {
                lemma_nodes_extend(&c1, &c2, path@, true);
                let n1 = c2.nodes();
                assert(extends(after, n1)) by {
                    assert forall|k: NodeKeyView| #[trigger] n1.contains_key(k)
                        implies after.contains_key(
                        k,
                    ) && after[k] == n1[k] by {}
                }
                assert(extends(after, store));
                if !(node_view is Null) {
                    lemma_frame(n1, after, node_view, path@);
                }
                assert(tree_wf(after, root_key(version)));
                assert forall|k: KeyHash| #[trigger]
                    lookup(after, root_key(version), k) == applied(
                        value_set@,
                        lookup(store, start_root(store, version), k),
                        k,
                    ) by {
                    assert(k.nibbles(0) =~= Seq::<u8>::empty());
                    assert(on_path(k, path@));
                    assert(lookup_node(after, node_view, 0, k) == lookup_node(n1, node_view, 0, k));
                }
                let start_view = start_root(store, version);
                assert(batch.stale_node_index_batch@ =~= c2.stale());
                assert forall|k: NodeKeyView| #[trigger] node_counted(store, version, batch, k) by {
                    assert(subtree_counted(&c1, &c2, base, node_view, path@, k));
                    if !(node_view is Null) {
                        lemma_reaches_frame(n1, after, node_view, path@, k);
                    }
                    assert(batch.node_batch@.contains_key(k) == (k == root_key(version)
                        || c2.live().contains_key(k)));
                    if store.contains_key(start_view) {
                        assert(base == store[start_view]);
                        assert(start_view.version != version);
                        assert(c1.stale() =~= Set::<StaleNodeIndexView>::empty().insert(
                            stale_mark(version, start_view),
                        ));
                        if reaches(store, base, path@, k) {
                            lemma_reaches_below(store, base, path@, k);
                        }
                        if k != start_view {
                            assert(stale_mark(version, k)
                                != stale_mark(version, start_view));
                        }
                    } else {
                        assert(base is Null);
                        assert(c1.stale() =~= Set::<StaleNodeIndexView>::empty());
                    }
                }
            }
        }
        Ok((root_hash, batch))
    }
}

/// Whether a batch at `version` can be applied to `store`: reads do not
/// fail, the store holds nothing of `version` yet, and it holds a
/// well-formed tree under the root from which the batch starts, or, for
/// version 0, no such root at all.
pub open spec fn put_premises(
    store: Map<NodeKeyView, NodeView>,
    reliable: bool,
    version: Version,
) -> bool {
    &&& reliable
    &&& version_unused(store, version)
    &&& if store.contains_key(start_root(store, version)) {
        tree_wf(store, start_root(store, version))
    } else {
        version == 0
    }
}

/// Whether `root_hash` and `batch` are what applying `ops` at `version`
/// gives: once the nodes of the batch are written, the store still holds
/// its old nodes, and under the root of `version` a well-formed tree with
/// the hash `root_hash` that has, for every key, what the batch asks for
/// it, and else what the tree before had. All the nodes and stale marks of
/// the batch are of `version`, and the account of every node is right.
pub open spec fn put_ok(
    store: Map<NodeKeyView, NodeView>,
    ops: Seq<Op>,
    version: Version,
    root_hash: RootHash,
    batch: UpdateBatch,
) -> bool {
    let after = store.union_prefer_right(batch.node_batch@);
    &&& extends(after, store)
    &&& tree_wf(after, root_key(version))
    &&& root_hash.0@ == after[root_key(version)].spec_hash()
    &&& forall|k: KeyHash| #[trigger]
        lookup(after, root_key(version), k) == applied(
            ops,
            lookup(store, start_root(store, version), k),
            k,
        )
    &&& forall|k: NodeKeyView| #[trigger] batch.node_batch@.contains_key(k) ==> k.version == version
    &&& forall|m: StaleNodeIndexView| #[trigger]
        batch.stale_node_index_batch@.contains(m) ==> m.stale_since_version == version
    &&& forall|k: NodeKeyView| #[trigger] node_counted(store, version, batch, k)
}

/// The account of the node `k` over a batch: it is part of the new tree or
/// marked stale by the batch, and not both, just where it was part of the
/// tree before or is written by the batch, and not both.
pub open spec fn node_counted(
    store: Map<NodeKeyView, NodeView>,
    version: Version,
    batch: UpdateBatch,
    k: NodeKeyView,
) -> bool {
    let after = store.union_prefer_right(batch.node_batch@);
    let was_part = in_tree(store, start_root(store, version), k);
    let written = batch.node_batch@.contains_key(k);
    &&& counted(
        was_part,
        in_tree(after, root_key(version), k),
        written,
        batch.stale_node_index_batch@.contains(stale_mark(version, k)),
    )
    &&& !(was_part && written)
}

/// What a proof shows of a node: its key hash and value hash where it is a
/// leaf.
pub open spec fn leaf_of(node: NodeView) -> Option<SparseMerkleLeafNode> {
    match node {
        NodeView::Leaf(l) => Some(
            SparseMerkleLeafNode { key_hash: l.key_hash, value_hash: l.value_hash },
        ),
        _ => None,
    }
}

/// The proof for `key` in the subtree under `node`, which stands at depth
/// `depth` on the way to `key`: the leaf at which the way ends, if any, and
/// the hashes beside the way, the deepest first. In an inner node the way
/// goes towards the slot of the next nibble of the key; where it ends at
/// the child in that slot, the proof goes on below that child, and the
/// hashes beside the way in the node come after those from below.
pub open spec fn spec_proof(
    nodes: Map<NodeKeyView, NodeView>,
    node: NodeView,
    depth: int,
    key: KeyHash,
) -> (Option<SparseMerkleLeafNode>, Seq<Seq<u8>>)
    decreases 64 - depth,
{
    match node {
        NodeView::Internal(n) => if 0 <= depth < 64 {
            let nib = key.nibble(depth) as int;
            let beside = range_siblings(n.children@, 0, 16, nib);
            match range_target(n.children@, 0, 16, nib) {
                None => (None, beside),
                Some(m) => {
                    let below = nodes[child_key(n.children@[m].unwrap(), key.nibbles(depth), m)];
                    if m == nib {
                        let deeper = spec_proof(nodes, below, depth + 1, key);
                        (deeper.0, deeper.1 + beside)
                    } else {
                        (leaf_of(below), beside)
                    }
                },
            }
        } else {
            (None, Seq::empty())
        },
        _ => (leaf_of(node), Seq::empty()),
    }
}

/// The proof for `key` in the tree of `version`.
pub open spec fn tree_proof(nodes: Map<NodeKeyView, NodeView>, version: Version, key: KeyHash) -> (
    Option<SparseMerkleLeafNode>,
    Seq<Seq<u8>>,
) {
    spec_proof(nodes, nodes[root_key(version)], 0, key)
}

/// Whether `proof` holds the leaf and the hashes of `shown`.
pub open spec fn proof_is(
    proof: SparseMerkleProof,
    shown: (Option<SparseMerkleLeafNode>, Seq<Seq<u8>>),
) -> bool {
    proof.leaf == shown.0 && hash_views(proof.siblings@) == shown.1
}

/// Whether `neighbor` is the key hash of a leaf of the tree of `version`
/// that sorts before `key` where `lower` is set, and after it otherwise.
pub open spec fn neighbor_key_ok(
    nodes: Map<NodeKeyView, NodeView>,
    version: Version,
    key: KeyHash,
    neighbor: KeyHash,
    lower: bool,
) -> bool {
    &&& lookup(nodes, root_key(version), neighbor) is Some
    &&& if lower {
        neighbor.spec_lt(key)
    } else {
        key.spec_lt(neighbor)
    }
}

/// Whether the node under `sk` is the root of a well-formed subtree of the
/// tree of `version`, all of whose keys sort before `key` where `lower` is
/// set, and after it otherwise.
pub open spec fn side_ok(
    nodes: Map<NodeKeyView, NodeView>,
    version: Version,
    key: KeyHash,
    sk: NodeKeyView,
    lower: bool,
) -> bool {
    &&& nodes.contains_key(sk)
    &&& sk.path.len() <= 64
    &&& !(nodes[sk] is Null)
    &&& node_wf(nodes, nodes[sk], sk.path)
    &&& forall|k: KeyHash| #[trigger]
        on_path(k, sk.path) ==> lookup(nodes, root_key(version), k) == lookup_node(
            nodes,
            nodes[sk],
            sk.path.len() as int,
            k,
        ) && if lower {
            k.spec_lt(key)
        } else {
            key.spec_lt(k)
        }
}

/// Whether `a` sorts before `b` where `lower` is set, and after it
/// otherwise.
pub open spec fn on_side(a: KeyHash, b: KeyHash, lower: bool) -> bool {
    if lower {
        a.spec_lt(b)
    } else {
        b.spec_lt(a)
    }
}

/// Whether `a` sorts before every key hash on the way through `path` where
/// `lower` is set, and after every one otherwise.
pub open spec fn beyond_all(a: KeyHash, path: Seq<u8>, lower: bool) -> bool {
    forall|k: KeyHash| #[trigger] on_path(k, path) ==> on_side(a, k, lower)
}

/// Whether `k` is, of the key hashes with a value in the subtree under
/// `node` at `path`, the greatest where `greatest` is set, and the least
/// otherwise.
pub open spec fn extreme_in(
    nodes: Map<NodeKeyView, NodeView>,
    node: NodeView,
    path: Seq<u8>,
    k: KeyHash,
    greatest: bool,
) -> bool {
    &&& on_path(k, path)
    &&& lookup_node(nodes, node, path.len() as int, k) is Some
    &&& forall|other: KeyHash| #[trigger]
        lookup_node(nodes, node, path.len() as int, other) is Some && on_path(other, path)
            ==> other == k || on_side(other, k, greatest)
}

/// Whether `found` is, of the key hashes with a value in the tree of
/// `version`, the nearest to `key` on one side: the greatest that sorts
/// before `key` where `lower` is set, the least that sorts after it
/// otherwise; it is nothing just where there is none on that side.
pub open spec fn nearest(
    nodes: Map<NodeKeyView, NodeView>,
    version: Version,
    key: KeyHash,
    found: Option<KeyHash>,
    lower: bool,
) -> bool {
    &&& found matches Some(k) ==> neighbor_key_ok(nodes, version, key, k, lower)
    &&& forall|other: KeyHash| #[trigger]
        lookup(nodes, root_key(version), other) is Some && on_side(other, key, lower) ==> found
            is Some && (other == found.unwrap() || on_side(other, found.unwrap(), lower))
}

/// The key that an exec key stands for, if there is one.
pub open spec fn key_view(k: Option<NodeKey>) -> Option<NodeKeyView> {
    match k {
        Some(k) => Some(k@),
        None => None,
    }
}

/// Whether the subtree `sub` beside the way through `cov` accounts for the
/// key hashes on one side of `key` that leave that way: each of them with
/// a value is in the subtree, or beyond all of it.
pub open spec fn covers(
    nodes: Map<NodeKeyView, NodeView>,
    version: Version,
    key: KeyHash,
    cov: Seq<u8>,
    sub: Option<NodeKeyView>,
    lower: bool,
) -> bool {
    forall|other: KeyHash| #[trigger]
        lookup(nodes, root_key(version), other) is Some && on_side(other, key, lower) && !on_path(
            other,
            cov,
        ) ==> sub is Some && (on_path(other, sub.unwrap().path) || beyond_all(
            other,
            sub.unwrap().path,
            lower,
        ))
}

/// Whether the way to `key` ended after `cov` with `only` as the one key
/// hash with a value on it, if any, and `leaf` is that key hash just where
/// it sorts on the side of `key` that `lower` names.
pub open spec fn ended(
    nodes: Map<NodeKeyView, NodeView>,
    version: Version,
    key: KeyHash,
    cov: Seq<u8>,
    only: Option<KeyHash>,
    leaf: Option<KeyHash>,
    lower: bool,
) -> bool {
    &&& forall|other: KeyHash| #[trigger]
        lookup(nodes, root_key(version), other) is Some && on_path(other, cov) ==> only == Some(
            other,
        )
    &&& only matches Some(k) ==> on_path(k, cov) && lookup(nodes, root_key(version), k) is Some
    &&& leaf matches Some(k) ==> only == Some(k) && on_side(k, key, lower)
    &&& leaf is None ==> (only matches Some(k) ==> !on_side(k, key, lower))
}

/// What is known of one side of `key` once the way to it has ended.
pub open spec fn side_known(
    nodes: Map<NodeKeyView, NodeView>,
    version: Version,
    key: KeyHash,
    sub: Option<NodeKeyView>,
    leaf: Option<KeyHash>,
    lower: bool,
    cov: Seq<u8>,
    only: Option<KeyHash>,
) -> bool {
    &&& tree_wf(nodes, root_key(version))
    &&& on_path(key, cov)
    &&& cov.len() <= 64
    &&& sub matches Some(sk) ==> side_ok(nodes, version, key, sk, lower)
    &&& covers(nodes, version, key, cov, sub, lower)
    &&& ended(nodes, version, key, cov, only, leaf, lower)
}

/// Whether `left` and `right` are the key hashes nearest to `key` in the
/// tree of `version`: the greatest below it and the least above it.
pub open spec fn neighbors_ok(
    nodes: Map<NodeKeyView, NodeView>,
    version: Version,
    key: KeyHash,
    left: Option<KeyHash>,
    right: Option<KeyHash>,
) -> bool {
    &&& nearest(nodes, version, key, left, true)
    &&& nearest(nodes, version, key, right, false)
}

/// One step down the way to `key`: where the subtree beside the way
/// accounted for the key hashes that left it before the node at `path`,
/// the subtree beside the way after the node accounts for those that leave
/// it at the node as well. The subtree after the node is that of the
/// nearest child beside the slot of `key`, or the one before where there
/// is no such child.
pub proof fn lemma_covers_step(
    nodes: Map<NodeKeyView, NodeView>,
    version: Version,
    key: KeyHash,
    n: InternalNode,
    path: Seq<u8>,
    old_sub: Option<NodeKeyView>,
    new_sub: Option<NodeKeyView>,
    lower: bool,
)
    requires
        path.len() < 64,
        on_path(key, path),
        node_wf(nodes, NodeView::Internal(n), path),
        forall|k: KeyHash| #[trigger]
            on_path(k, path) ==> lookup(nodes, root_key(version), k) == lookup_node(
                nodes,
                NodeView::Internal(n),
                path.len() as int,
                k,
            ),
        covers(nodes, version, key, path, old_sub, lower),
        new_sub == (match nearest_slot(n, key.nibble(path.len() as int), lower) {
            Some(j) => Some(child_key(n.children@[j as int].unwrap(), path, j as int)),
            None => old_sub,
        }),
    ensures
        covers(nodes, version, key, path.push(key.nibble(path.len() as int)), new_sub, lower),
{
    let d = path.len() as int;
    let nib = key.nibble(d);
    lemma_nibble_bound(key, d);
    let near = nearest_slot(n, nib, lower);
    assert forall|other: KeyHash| #[trigger]
        lookup(nodes, root_key(version), other) is Some && on_side(other, key, lower) && !on_path(
            other,
            path.push(nib),
        ) implies new_sub is Some && (on_path(other, new_sub.unwrap().path) || beyond_all(
        other,
        new_sub.unwrap().path,
        lower,
    )) by {
        lemma_on_path_push(other, path, nib);
        if !on_path(other, path) {
            assert(old_sub is Some);
            if let Some(j) = near {
                let sp = new_sub.unwrap().path;
                assert(sp == path.push(j));
                assert forall|k2: KeyHash| #[trigger] on_path(k2, sp) implies on_side(
                    other,
                    k2,
                    lower,
                ) by {
                    lemma_on_path_push(k2, path, j);
                    lemma_lt_off_path(other, key, k2, d);
                }
            }
        } else {
            let i = other.nibble(d);
            lemma_nibble_bound(other, d);
            lemma_lookup_child(nodes, n, path, other);
            assert(n.children@[i as int] is Some);
            assert(other.nibbles(d) == key.nibbles(d));
            if lower {
                if i > nib {
                    lemma_nibble_order(key, other, d);
                    lemma_lt_asymmetric(key, other);
                }
            } else {
                if i < nib {
                    lemma_nibble_order(other, key, d);
                    lemma_lt_asymmetric(other, key);
                }
            }
            let j = near.unwrap();
            let sp = new_sub.unwrap().path;
            assert(sp == path.push(j));
            if i == j {
                lemma_on_path_push(other, path, j);
            } else {
                assert forall|k2: KeyHash| #[trigger] on_path(k2, sp) implies on_side(
                    other,
                    k2,
                    lower,
                ) by {
                    lemma_on_path_push(k2, path, j);
                    assert(other.nibbles(d) == k2.nibbles(d));
                    if lower {
                        lemma_nibble_order(other, k2, d);
                    } else {
                        lemma_nibble_order(k2, other, d);
                    }
                }
            }
        }
    }
}

/// The slot of the nearest child beside slot `nib`: the greatest occupied
/// slot below it where `lower` is set, the least above it otherwise.
pub open spec fn nearest_slot(n: InternalNode, nib: u8, lower: bool) -> Option<u8> {
    if lower {
        if exists|j: u8| j < nib && n.children@[j as int] is Some {
            Some(
                choose|j: u8|
                    j < nib && n.children@[j as int] is Some && forall|i: int|
                        j < i < nib ==> n.children@[i] is None,
            )
        } else {
            None
        }
    } else {
        if exists|j: u8| nib < j < 16 && n.children@[j as int] is Some {
            Some(
                choose|j: u8|
                    nib < j < 16 && n.children@[j as int] is Some && forall|i: int|
                        nib < i < j ==> n.children@[i] is None,
            )
        } else {
            None
        }
    }
}

/// The child in a slot beside the way to `key` is the root of a subtree on
/// one side of `key`: below it where the slot is less than the nibble of
/// `key`, and above it where it is greater.
pub proof fn lemma_side(
    nodes: Map<NodeKeyView, NodeView>,
    version: Version,
    key: KeyHash,
    node: NodeView,
    path: Seq<u8>,
    child: Child,
    slot: u8,
)
    requires
        path.len() < 64,
        slot < 16,
        slot != key.nibble(path.len() as int),
        on_path(key, path),
        node matches NodeView::Internal(n) && n.children@[slot as int] == Some(child),
        node_wf(nodes, node, path),
        forall|k: KeyHash| #[trigger]
            on_path(k, path) ==> lookup(nodes, root_key(version), k) == lookup_node(
                nodes,
                node,
                path.len() as int,
                k,
            ),
    ensures
        side_ok(
            nodes,
            version,
            key,
            child_key(child, path, slot as int),
            slot < key.nibble(path.len() as int),
        ),
{
    let d = path.len() as int;
    let sk = child_key(child, path, slot as int);
    let lower = slot < key.nibble(d);
    assert forall|k: KeyHash| #[trigger] on_path(k, sk.path) implies lookup(
        nodes,
        root_key(version),
        k,
    ) == lookup_node(nodes, nodes[sk], sk.path.len() as int, k) && if lower {
        k.spec_lt(key)
    } else {
        key.spec_lt(k)
    } by {
        lemma_on_path_push(k, path, slot);
        assert(on_path(k, path));
        assert(k.nibbles(d) == path);
        assert(key.nibbles(d) == path);
        if lower {
            lemma_nibble_order(k, key, d);
        } else {
            lemma_nibble_order(key, k, d);
        }
    }
}

/// Whether `proof` is the proof of the tree for a leaf other than `key`, on
/// the side of `key` that `lower` names, and gives the hash of the root of
/// `version` where the tree is well formed.
pub open spec fn neighbor_ok(
    nodes: Map<NodeKeyView, NodeView>,
    version: Version,
    key: KeyHash,
    proof: SparseMerkleProof,
    lower: bool,
) -> bool {
    &&& proof.leaf is Some
    &&& proof.siblings@.len() <= 256
    &&& proof_is(proof, tree_proof(nodes, version, proof.leaf.unwrap().key_hash))
    &&& if lower {
        proof.leaf.unwrap().key_hash.spec_lt(key)
    } else {
        key.spec_lt(proof.leaf.unwrap().key_hash)
    }
    &&& lookup(nodes, root_key(version), proof.leaf.unwrap().key_hash) is Some
    &&& proof.leaf.unwrap().value_hash@ == sha256(
        lookup(nodes, root_key(version), proof.leaf.unwrap().key_hash).unwrap(),
    )
    &&& tree_wf(nodes, root_key(version)) ==> proof.spec_root() == nodes[root_key(
        version,
    )].spec_hash()
}

/// Whether the leaves of `excl` are the neighbours of `key` in the tree of
/// `version` that its shape names: the least leaf above `key` where there
/// is none below, the greatest leaf below it where there is none above, and
/// both of them otherwise. That they are the nearest leaves holds of a
/// well-formed tree.
pub open spec fn exclusion_ok(
    nodes: Map<NodeKeyView, NodeView>,
    version: Version,
    key: KeyHash,
    excl: ExclusionProof,
) -> bool {
    match excl {
        ExclusionProof::Leftmost { leftmost_right_proof } => {
            &&& neighbor_ok(nodes, version, key, leftmost_right_proof, false)
            &&& tree_wf(nodes, root_key(version)) ==> neighbors_ok(
                nodes,
                version,
                key,
                None,
                Some(leftmost_right_proof.leaf.unwrap().key_hash),
            )
        },
        ExclusionProof::Middle { leftmost_right_proof, rightmost_left_proof } => {
            &&& neighbor_ok(nodes, version, key, leftmost_right_proof, false)
            &&& neighbor_ok(nodes, version, key, rightmost_left_proof, true)
            &&& tree_wf(nodes, root_key(version)) ==> neighbors_ok(
                nodes,
                version,
                key,
                Some(rightmost_left_proof.leaf.unwrap().key_hash),
                Some(leftmost_right_proof.leaf.unwrap().key_hash),
            )
        },
        ExclusionProof::Rightmost { rightmost_left_proof } => {
            &&& neighbor_ok(nodes, version, key, rightmost_left_proof, true)
            &&& tree_wf(nodes, root_key(version)) ==> neighbors_ok(
                nodes,
                version,
                key,
                Some(rightmost_left_proof.leaf.unwrap().key_hash),
                None,
            )
        },
    }
}

} // verus!
