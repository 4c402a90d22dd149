//! A store of nodes in memory.
use crate::hash::{key_hash_of, lemma_lt_irreflexive, lemma_lt_transitive, sha256, KeyHash};
use crate::node_type::{LeafNode, Node, NodeKey, NodeKeyView, NodeView};
use crate::storage::{
    entries_map, entries_set, lemma_entries_absent, lemma_entries_dom, lemma_entries_found,
    HasPreimage, JmtError, NodeBatch, StaleNodeIndex, StaleNodeIndexBatch, StaleNodeIndexView,
    TreeReader, TreeWriter, UpdateBatch,
};
use std::collections::HashMap;
use vstd::prelude::*;

verus! {

broadcast use vstd::std_specs::hash::group_hash_axioms;

/// The nodes that a map from versions to batches holds: each node under
/// its key, in the batch of the key's version.
pub open spec fn bucket_nodes(buckets: Map<u64, NodeBatch>) -> Map<NodeKeyView, NodeView> {
    Map::new(
        |k: NodeKeyView| buckets.contains_key(k.version) && buckets[k.version]@.contains_key(k),
        |k: NodeKeyView| buckets[k.version]@[k],
    )
}

/// The map that a list of keys with their hashes stands for; where a hash
/// comes twice, the later entry counts.
pub open spec fn preimage_map(s: Seq<(KeyHash, Vec<u8>)>) -> Map<KeyHash, Seq<u8>>
    decreases s.len(),
{
    if s.len() == 0 {
        Map::empty()
    } else {
        preimage_map(s.drop_last()).insert(s.last().0, s.last().1@)
    }
}

/// The last entry with a hash gives the key of that hash, and a hash that
/// no entry has is not in the map.
pub proof fn lemma_preimage_map(s: Seq<(KeyHash, Vec<u8>)>, i: int, k: KeyHash)
    requires
        0 <= i <= s.len(),
        forall|j: int| i <= j < s.len() ==> (#[trigger] s[j]).0 != k,
    ensures
        i > 0 && s[i - 1].0 == k ==> preimage_map(s).contains_key(k) && preimage_map(s)[k] == s[i
            - 1].1@,
        i == 0 ==> !preimage_map(s).contains_key(k),
    decreases s.len(),
{
    if s.len() > 0 && i < s.len() {
        lemma_preimage_map(s.drop_last(), i, k);
    }
}

/// Whether `rightmost` is the leaf with the greatest key hash in `nodes`.
pub open spec fn is_rightmost(
    nodes: Map<NodeKeyView, NodeView>,
    rightmost: Option<(NodeKey, LeafNode)>,
) -> bool {
    match rightmost {
        Some(found) => {
            &&& nodes.contains_key(found.0@)
            &&& nodes[found.0@] == NodeView::Leaf(found.1@)
            &&& forall|k: NodeKeyView|
                nodes.contains_key(k) ==> (#[trigger] nodes[k] matches NodeView::Leaf(l)
                    ==> !found.1@.key_hash.spec_lt(l.key_hash))
        },
        None => forall|k: NodeKeyView| nodes.contains_key(k) ==> !(#[trigger] nodes[k] is Leaf),
    }
}

/// A store in memory: the nodes by version, the stale node marks, and the
/// keys by their hashes.
pub struct MockTreeStore {
    buckets: HashMap<u64, NodeBatch>,
    rightmost: Option<(NodeKey, LeafNode)>,
    stale: StaleNodeIndexBatch,
    preimages: Vec<(KeyHash, Vec<u8>)>,
}

impl MockTreeStore {
    #[verifier::type_invariant]
    spec fn inv(self) -> bool {
        &&& is_rightmost(bucket_nodes(self.buckets@), self.rightmost)
        &&& forall|i: int|
            0 <= i < self.preimages@.len() ==> sha256((#[trigger] self.preimages@[i]).1@)
                == self.preimages@[i].0.0@
    }

    /// The stale node marks that the store holds.
    pub closed spec fn stale_marks(&self) -> Set<StaleNodeIndexView> {
        self.stale@
    }

    /// The empty store.
    pub fn new() -> (r: Self)
        ensures
            r.nodes() == Map::<NodeKeyView, NodeView>::empty(),
            r.preimages() == Map::<KeyHash, Seq<u8>>::empty(),
            r.stale_marks() == Set::<StaleNodeIndexView>::empty(),
    {
        let r = MockTreeStore {
            buckets: HashMap::new(),
            rightmost: None,
            stale: StaleNodeIndexBatch::new(),
            preimages: Vec::new(),
        };
        assert(r.nodes() =~= Map::<NodeKeyView, NodeView>::empty());
        r
    }

    /// Writes a node under a key that the store does not hold yet.
    pub fn put_node(&mut self, node_key: NodeKey, node: Node) -> (r: Result<(), JmtError>)
        ensures
            final(self).preimages() == old(self).preimages(),
            final(self).stale_marks() == old(self).stale_marks(),
            r is Err <==> old(self).nodes().contains_key(node_key@),
            r matches Err(e) ==> e is InvalidOperation && final(self).nodes() == old(self).nodes(),
            r is Ok ==> final(self).nodes() == old(self).nodes().insert(node_key@, node@),
    {
        let mut taken = MockTreeStore::new();
        core::mem::swap(self, &mut taken);
        proof {
            use_type_invariant(&taken);
        }
        let MockTreeStore { buckets, rightmost, stale, preimages } = taken;
        let mut buckets = buckets;
        let mut rightmost = rightmost;
        let ghost before = bucket_nodes(buckets@);
        let ghost buckets0 = buckets@;
        let version = node_key.version();
        let mut bucket = match buckets.remove(&version) {
            Some(b) => b,
            None => NodeBatch::new(),
        };
        let ghost bucket0 = bucket@;
        let leaf: Option<LeafNode> = match &node {
            Node::Leaf(l) => Some(l.clone()),
            _ => None,
        };
        let ghost key_view = node_key@;
        let ghost node_view = node@;
        let key_copy = node_key.clone();
        let added = bucket.insert(node_key, node);
        buckets.insert(version, bucket);
        proof {
            if added {
                assert(bucket_nodes(buckets@) =~= before.insert(key_view, node_view));
            } else {
                assert(bucket_nodes(buckets@) =~= before);
            }
        }
        if added {
            if let Some(l) = leaf {
                let replace = match &rightmost {
                    Some(found) => found.1.key_hash().lt(&l.key_hash()),
                    None => true,
                };
                proof {
                    let after = bucket_nodes(buckets@);
                    lemma_lt_irreflexive(l@.key_hash);
                    if replace {
                        assert forall|k: NodeKeyView| after.contains_key(k) implies (
                        #[trigger] after[k] matches NodeView::Leaf(l2) ==> !l@.key_hash.spec_lt(
                            l2.key_hash,
                        )) by {
                            if let NodeView::Leaf(l2) = after[k] {
                                if k != key_view {
                                    assert(before.contains_key(k) && before[k] == after[k]);
                                    if let Some(found) = rightmost {
                                        if l@.key_hash.spec_lt(l2.key_hash) {
                                            lemma_lt_transitive(
                                                found.1@.key_hash,
                                                l@.key_hash,
                                                l2.key_hash,
                                            );
                                        }
                                    }
                                }
                            }
                        }
                    } else {
                        assert forall|k: NodeKeyView| after.contains_key(k) implies (
                        #[trigger] after[k] matches NodeView::Leaf(l2)
                            ==> !rightmost.unwrap().1@.key_hash.spec_lt(l2.key_hash)) by {
                            if k != key_view {
                                assert(before.contains_key(k) && before[k] == after[k]);
                            }
                        }
                    }
                }
                if replace {
                    rightmost = Some((key_copy, l));
                }
            } else {
                proof {
                    let after = bucket_nodes(buckets@);
                    assert forall|k: NodeKeyView| after.contains_key(k) && k != key_view
                        implies before.contains_key(
                        k,
                    ) && before[k] == #[trigger] after[k] by {}
                }
            }
        }
        *self = MockTreeStore { buckets, rightmost, stale, preimages };
        if added {
            Ok(())
        } else {
            Err(JmtError::InvalidOperation)
        }
    }

    /// Records a key, so that it can be found by its hash.
    pub fn put_key_preimage(&mut self, preimage: &Vec<u8>)
        ensures
            final(self).nodes() == old(self).nodes(),
            final(self).stale_marks() == old(self).stale_marks(),
            final(self).preimages() == old(self).preimages().insert(
                key_hash_of(preimage@),
                preimage@,
            ),
    {
        let key_hash = KeyHash::with_sha256(preimage.as_slice());
        let copy = preimage.clone();
        assert(copy@ =~= preimage@);
        let mut taken = MockTreeStore::new();
        core::mem::swap(self, &mut taken);
        proof {
            use_type_invariant(&taken);
        }
        let MockTreeStore { buckets, rightmost, stale, preimages } = taken;
        let mut preimages = preimages;
        let ghost before = preimages@;
        proof {
            assert(before.push((key_hash, copy)).drop_last() =~= before);
        }
        preimages.push((key_hash, copy));
        *self = MockTreeStore { buckets, rightmost, stale, preimages };
        assert(self.preimages() == old(self).preimages().insert(key_hash, preimage@));
    }
}

impl Default for MockTreeStore {
    fn default() -> (r: Self)
        ensures
            r.nodes() == Map::<NodeKeyView, NodeView>::empty(),
            r.preimages() == Map::<KeyHash, Seq<u8>>::empty(),
    {
        MockTreeStore::new()
    }
}

impl TreeReader for MockTreeStore {
    closed spec fn nodes(&self) -> Map<NodeKeyView, NodeView> {
        bucket_nodes(self.buckets@)
    }

    open spec fn reliable(&self) -> bool {
        true
    }

    fn get_node_option(&self, node_key: &NodeKey) -> (r: Result<Option<Node>, JmtError>) {
        let version = node_key.version();
        match self.buckets.get(&version) {
            Some(bucket) => match bucket.get(node_key) {
                Some(node) => Ok(Some(node.clone())),
                None => Ok(None),
            },
            None => Ok(None),
        }
    }

    fn get_rightmost_leaf(&self) -> (r: Result<Option<(NodeKey, LeafNode)>, JmtError>) {
        proof {
            use_type_invariant(self);
        }
        match &self.rightmost {
            Some(found) => Ok(Some((found.0.clone(), found.1.clone()))),
            None => Ok(None),
        }
    }
}

impl TreeWriter for MockTreeStore {
    /// Writes the nodes and stale node marks of a batch. Where the store
    /// holds a node under one of the keys already, nothing is written.
    fn write_tree_update_batch(&mut self, batch: UpdateBatch) -> (r: Result<(), JmtError>)
        ensures
            final(self).preimages() == old(self).preimages(),
            r is Err <==> exists|k: NodeKeyView|
                batch.node_batch@.contains_key(k) && old(self).nodes().contains_key(k),
            r matches Err(e) ==> e is InvalidOperation && final(self).nodes() == old(self).nodes()
                && final(self).stale_marks() == old(self).stale_marks(),
            r is Ok ==> final(self).stale_marks() == old(self).stale_marks().union(
                batch.stale_node_index_batch@,
            ),
    {
        let entries = batch.node_batch.nodes();
        let n = entries.len();
        let mut i: usize = 0;
        while i < n
            invariant
                i <= n,
                n == entries@.len(),
                *self == *old(self),
                entries_map(entries@) == batch.node_batch@,
                forall|a: int, b: int|
                    0 <= a < b < entries@.len() ==> (#[trigger] entries@[a]).0@ != (
                    #[trigger] entries@[b]).0@,
                forall|j: int| 0 <= j < i ==>
                    !self.nodes().contains_key((#[trigger] entries@[j]).0@),
            decreases n - i,
        {
            match self.get_node_option(&entries[i].0) {
                Ok(None) => {},
                _ => {
                    proof {
                        lemma_entries_found(entries@, i as int, entries@[i as int].0@);
                    }
                    return Err(JmtError::InvalidOperation);
                },
            }
            i += 1;
        }
        proof {
            assert forall|k: NodeKeyView| batch.node_batch@.contains_key(k) implies !old(
                self,
            ).nodes().contains_key(k) by {
                lemma_entries_dom(entries@, k);
            }
        }
        let ghost nodes0 = self.nodes();
        let mut i: usize = 0;
        assert(entries@.take(0) =~= Seq::<(NodeKey, Node)>::empty());
        assert(self.nodes() =~= nodes0.union_prefer_right(entries_map(entries@.take(0))));
        while i < n
            invariant
                i <= n,
                n == entries@.len(),
                self.preimages() == old(self).preimages(),
                self.stale_marks() == old(self).stale_marks(),
                nodes0 == old(self).nodes(),
                forall|a: int, b: int|
                    0 <= a < b < entries@.len() ==> (#[trigger] entries@[a]).0@ != (
                    #[trigger] entries@[b]).0@,
                forall|j: int| 0 <= j < n ==> !nodes0.contains_key((#[trigger] entries@[j]).0@),
                self.nodes() == nodes0.union_prefer_right(entries_map(entries@.take(i as int))),
            decreases n - i,
        {
            let key = entries[i].0.clone();
            let node = entries[i].1.clone();
            proof {
                let before = entries@.take(i as int);
                assert(entries@.take(i + 1).drop_last() =~= before);
                assert(entries@.take(i + 1).last() == entries@[i as int]);
                assert forall|j: int| 0 <= j < before.len() implies (#[trigger] before[j]).0@
                    != key@ by {
                    assert(before[j] == entries@[j]);
                }
                lemma_entries_absent(before, key@);
            }
            let ghost cur = self.nodes();
            let r = self.put_node(key, node);
            assert(r is Ok);
            i += 1;
            assert(self.nodes() =~= nodes0.union_prefer_right(entries_map(entries@.take(i as int))));
        }
        assert(entries@.take(n as int) =~= entries@);
        let marks = batch.stale_node_index_batch.entries();
        let mut taken = MockTreeStore::new();
        core::mem::swap(self, &mut taken);
        proof {
            use_type_invariant(&taken);
        }
        let MockTreeStore { buckets, rightmost, stale, preimages } = taken;
        let mut stale = stale;
        let ghost stale0 = stale@;
        let mut i: usize = 0;
        assert(marks@.take(0) =~= Seq::<StaleNodeIndex>::empty());
        assert(stale@ =~= stale0.union(entries_set(marks@.take(0))));
        while i < marks.len()
            invariant
                i <= marks@.len(),
                stale@ == stale0.union(entries_set(marks@.take(i as int))),
            decreases marks@.len() - i,
        {
            proof {
                assert(marks@.take(i + 1).drop_last() =~= marks@.take(i as int));
                assert(marks@.take(i + 1).last() == marks@[i as int]);
            }
            stale.insert(marks[i].stale_since_version, marks[i].node_key.clone());
            i += 1;
            assert(stale@ =~= stale0.union(entries_set(marks@.take(i as int))));
        }
        assert(marks@.take(marks@.len() as int) =~= marks@);
        *self = MockTreeStore { buckets, rightmost, stale, preimages };
        Ok(())
    }
}

impl HasPreimage for MockTreeStore {
    closed spec fn preimages(&self) -> Map<KeyHash, Seq<u8>> {
        preimage_map(self.preimages@)
    }

    open spec fn preimage_reliable(&self) -> bool {
        true
    }

    fn preimage(&self, key_hash: KeyHash) -> (r: Result<Option<Vec<u8>>, JmtError>) {
        proof {
            use_type_invariant(self);
        }
        let mut i: usize = self.preimages.len();
        while i > 0
            invariant
                i <= self.preimages@.len(),
                forall|j: int| i <= j < self.preimages@.len() ==> (#[trigger] self.preimages@[j]).0
                    != key_hash,
                forall|j: int|
                    0 <= j < self.preimages@.len() ==> sha256((#[trigger] self.preimages@[j]).1@)
                        == self.preimages@[j].0.0@,
            decreases i,
        {
            if self.preimages[i - 1].0.same(&key_hash) {
                proof {
                    lemma_preimage_map(self.preimages@, i as int, key_hash);
                }
                let found = self.preimages[i - 1].1.clone();
                assert(found@ =~= self.preimages@[i - 1].1@);
                return Ok(Some(found));
            }
            i -= 1;
        }
        proof {
            lemma_preimage_map(self.preimages@, 0, key_hash);
        }
        Ok(None)
    }
}

} // verus!
