//! The cache that stages the node writes of one batch over a store.
use crate::node_type::{root_key, Node, NodeKey, NodeKeyView, NodeView};
use crate::storage::{
    entries_map, entries_set, lemma_entries_absent, JmtError, NodeBatch, StaleNodeIndex,
    StaleNodeIndexBatch, StaleNodeIndexView, TreeReader, UpdateBatch,
};
use crate::types::{PRE_GENESIS_VERSION, Version};
use vstd::prelude::*;

verus! {

/// The key of the root from which a batch at `next_version` starts: the root
/// of the version before, or for version 0 the root written before genesis
/// where the store holds one, else the root of version 0 itself, which is
/// not written yet.
pub open spec fn start_root(
    store: Map<NodeKeyView, NodeView>,
    next_version: Version,
) -> NodeKeyView {
    if next_version == 0 {
        if store.contains_key(root_key(PRE_GENESIS_VERSION)) {
            root_key(PRE_GENESIS_VERSION)
        } else {
            root_key(0)
        }
    } else {
        root_key((next_version - 1) as Version)
    }
}

/// The mark that `key` went stale at `version`.
pub open spec fn stale_mark(version: Version, key: NodeKeyView) -> StaleNodeIndexView {
    StaleNodeIndexView { stale_since_version: version, node_key: key }
}

/// Stages the reads and writes of one batch at one version. Nodes are read
/// from the frozen part first, then from the live part, then from the store.
pub struct TreeCache<'a, R: TreeReader> {
    root_node_key: NodeKey,
    next_version: Version,
    node_cache: NodeBatch,
    stale_node_index_cache: StaleNodeIndexBatch,
    frozen_node_cache: NodeBatch,
    frozen_stale_node_index_cache: StaleNodeIndexBatch,
    reader: &'a R,
}

impl<'a, R: TreeReader> TreeCache<'a, R> {
    /// The nodes of the store under the cache.
    pub closed spec fn store(&self) -> Map<NodeKeyView, NodeView> {
        self.reader.nodes()
    }

    /// Whether no read of the store under the cache fails.
    pub closed spec fn reliable(&self) -> bool {
        self.reader.reliable()
    }

    /// The nodes written since the cache was last frozen.
    pub closed spec fn live(&self) -> Map<NodeKeyView, NodeView> {
        self.node_cache@
    }

    /// The nodes written before the cache was last frozen.
    pub closed spec fn frozen(&self) -> Map<NodeKeyView, NodeView> {
        self.frozen_node_cache@
    }

    /// The nodes marked stale since the cache was last frozen.
    pub closed spec fn stale(&self) -> Set<StaleNodeIndexView> {
        self.stale_node_index_cache@
    }

    /// The nodes marked stale before the cache was last frozen.
    pub closed spec fn frozen_stale(&self) -> Set<StaleNodeIndexView> {
        self.frozen_stale_node_index_cache@
    }

    /// The key of the root of the tree as the batch has it now.
    pub closed spec fn root(&self) -> NodeKeyView {
        self.root_node_key@
    }

    /// The version that the batch writes.
    pub closed spec fn version(&self) -> Version {
        self.next_version
    }

    /// The nodes written through the cache, frozen or live.
    pub open spec fn written(&self) -> Map<NodeKeyView, NodeView> {
        self.live().union_prefer_right(self.frozen())
    }

    /// Every node of which the cache knows: those of the store, under those
    /// it has written.
    pub open spec fn nodes(&self) -> Map<NodeKeyView, NodeView> {
        self.store().union_prefer_right(self.written())
    }

    /// All the nodes marked stale through the cache.
    pub open spec fn all_stale(&self) -> Set<StaleNodeIndexView> {
        self.frozen_stale().union(self.stale())
    }

    /// Whether `other` is the same cache over the same store but for its
    /// live nodes, live stale marks and root.
    pub open spec fn same_base(&self, other: &Self) -> bool {
        &&& self.store() == other.store()
        &&& self.reliable() == other.reliable()
        &&& self.frozen() == other.frozen()
        &&& self.frozen_stale() == other.frozen_stale()
        &&& self.version() == other.version()
    }

    /// A cache for the batch at `next_version` over `reader`. It starts at
    /// the root of the version before.
    pub fn new(reader: &'a R, next_version: Version) -> (r: Result<Self, JmtError>)
        ensures
            reader.reliable() ==> r is Ok,
            r matches Err(e) ==> e is Reader,
            r matches Ok(c) ==> {
                &&& c.store() == reader.nodes()
                &&& c.reliable() == reader.reliable()
                &&& c.live() == Map::<NodeKeyView, NodeView>::empty()
                &&& c.frozen() == Map::<NodeKeyView, NodeView>::empty()
                &&& c.stale() == Set::<StaleNodeIndexView>::empty()
                &&& c.frozen_stale() == Set::<StaleNodeIndexView>::empty()
                &&& c.version() == next_version
                &&& c.root() == start_root(reader.nodes(), next_version)
            },
    {
        let root_node_key = if next_version == 0 {
            let pre_genesis_root_key = NodeKey::new_empty_path(PRE_GENESIS_VERSION);
            match reader.get_node_option(&pre_genesis_root_key) {
                Err(e) => {
                    return Err(e);
                },
                Ok(Some(_)) => pre_genesis_root_key,
                Ok(None) => NodeKey::new_empty_path(0),
            }
        } else {
            NodeKey::new_empty_path(next_version - 1)
        };
        Ok(
            TreeCache {
                root_node_key,
                next_version,
                node_cache: NodeBatch::new(),
                stale_node_index_cache: StaleNodeIndexBatch::new(),
                frozen_node_cache: NodeBatch::new(),
                frozen_stale_node_index_cache: StaleNodeIndexBatch::new(),
                reader,
            },
        )
    }

    /// The version that the batch writes.
    pub fn next_version(&self) -> (v: Version)
        ensures
            v == self.version(),
    {
        self.next_version
    }

    /// The key of the root of the tree as the batch has it now.
    pub fn get_root_node_key(&self) -> (k: &NodeKey)
        ensures
            k@ == self.root(),
    {
        &self.root_node_key
    }

    /// Makes `root_node_key` the root of the tree.
    pub fn set_root_node_key(&mut self, root_node_key: NodeKey)
        ensures
            final(self).root() == root_node_key@,
            final(self).same_base(old(self)),
            final(self).live() == old(self).live(),
            final(self).stale() == old(self).stale(),
    {
        self.root_node_key = root_node_key;
    }

    /// Reads the node with the given key: from the frozen part of the
    /// cache, else from its live part, else from the store.
    pub fn get_node_option(&self, node_key: &NodeKey) -> (r: Result<Option<Node>, JmtError>)
        ensures
            self.reliable() || self.written().contains_key(node_key@) ==> r is Ok,
            r matches Err(e) ==> e is Reader,
            r matches Ok(Some(n)) ==>
                self.nodes().contains_key(node_key@) && self.nodes()[node_key@]
                == n@,
            r matches Ok(None) ==> !self.nodes().contains_key(node_key@),
    {
        if let Some(node) = self.frozen_node_cache.get(node_key) {
            return Ok(Some(node.clone()));
        }
        if let Some(node) = self.node_cache.get(node_key) {
            return Ok(Some(node.clone()));
        }
        self.reader.get_node_option(node_key)
    }

    /// Reads the node with the given key, which must exist.
    pub fn get_node(&self, node_key: &NodeKey) -> (r: Result<Node, JmtError>)
        ensures
            self.nodes().contains_key(node_key@) && (self.reliable() || self.written().contains_key(
                node_key@,
            )) ==> r is Ok,
            r matches Ok(n) ==> self.nodes().contains_key(node_key@) && self.nodes()[node_key@]
                == n@,
            r matches Err(e) ==> match e {
                JmtError::MissingNode(k) => k@ == node_key@ && !self.nodes().contains_key(
                    node_key@,
                ),
                JmtError::Reader => !self.reliable(),
                _ => false,
            },
    {
        match self.get_node_option(node_key) {
            Ok(Some(node)) => Ok(node),
            Ok(None) => Err(JmtError::MissingNode(node_key.clone())),
            Err(e) => Err(e),
        }
    }

    /// Writes a new node. It is an error to write under a key that the live
    /// part of the cache holds already, or to write the empty node below
    /// the root; the cache is then left as it was.
    pub fn put_node(&mut self, node_key: NodeKey, new_node: Node) -> (r: Result<(), JmtError>)
        ensures
            final(self).same_base(old(self)),
            final(self).root() == old(self).root(),
            final(self).stale() == old(self).stale(),
            r is Err <==> old(self).live().contains_key(node_key@) || (new_node@ is Null
                && node_key@.path.len() > 0),
            r matches Err(e) ==> e is InvalidOperation && final(self).live() == old(self).live(),
            r is Ok ==> final(self).live() == old(self).live().insert(node_key@, new_node@),
    {
        if let Node::Null = new_node {
            if !node_key.nibble_path().is_empty() {
                return Err(JmtError::InvalidOperation);
            }
        }
        if self.node_cache.insert(node_key, new_node) {
            Ok(())
        } else {
            Err(JmtError::InvalidOperation)
        }
    }

    /// Marks the node with the given key as stale since the version of the
    /// batch. The node stays readable, also where this batch wrote it. The
    /// flag is not recorded.
    pub fn delete_node(&mut self, old_node_key: &NodeKey, is_leaf: bool)
        ensures
            final(self).same_base(old(self)),
            final(self).root() == old(self).root(),
            final(self).live() == old(self).live(),
            final(self).stale() == old(self).stale().insert(
                stale_mark(old(self).version(), old_node_key@),
            ),
    {
        let _ = is_leaf;
        self.stale_node_index_cache.insert(self.next_version, old_node_key.clone());
    }

    /// Moves the live nodes and stale marks over to the frozen ones, where a
    /// key or a mark is not there already.
    fn merge_live(&mut self)
        ensures
            final(self).store() == old(self).store(),
            final(self).reliable() == old(self).reliable(),
            final(self).version() == old(self).version(),
            final(self).root() == old(self).root(),
            final(self).live() == Map::<NodeKeyView, NodeView>::empty(),
            final(self).stale() == Set::<StaleNodeIndexView>::empty(),
            final(self).frozen() == old(self).written(),
            final(self).frozen_stale() == old(self).all_stale(),
    {
        let mut live = NodeBatch::new();
        core::mem::swap(&mut self.node_cache, &mut live);
        if self.frozen_node_cache.is_empty() {
            core::mem::swap(&mut self.frozen_node_cache, &mut live);
            assert(self.frozen_node_cache@ =~= self.frozen_node_cache@.union_prefer_right(live@));
        } else {
            let ghost frozen0 = self.frozen_node_cache@;
            let entries = live.nodes();
            let mut i: usize = 0;
            assert(entries@.take(0) =~= Seq::<(NodeKey, Node)>::empty());
            assert(self.frozen_node_cache@ =~= entries_map(entries@.take(0)).union_prefer_right(
                frozen0,
            ));
            while i < entries.len()
                invariant
                    i <= entries@.len(),
                    forall|a: int, b: int|
                        0 <= a < b < entries@.len() ==> (#[trigger] entries@[a]).0@ != (
                        #[trigger] entries@[b]).0@,
                    self.frozen_node_cache@ == entries_map(
                        entries@.take(i as int),
                    ).union_prefer_right(frozen0),
                    self.reader == old(self).reader,
                    self.next_version == old(self).next_version,
                    self.root_node_key == old(self).root_node_key,
                    self.node_cache@ == Map::<NodeKeyView, NodeView>::empty(),
                    self.stale_node_index_cache == old(self).stale_node_index_cache,
                    self.frozen_stale_node_index_cache == old(self).frozen_stale_node_index_cache,
                decreases entries@.len() - i,
            {
                let key = entries[i].0.clone();
                let node = entries[i].1.clone();
                proof {
                    let before = entries@.take(i as int);
                    assert(entries@.take(i + 1).drop_last() =~= before);
                    assert(entries@.take(i + 1).last() == entries@[i as int]);
                    assert forall|j: int| 0 <= j < before.len() implies (#[trigger] before[j]).0@
                        != key@ by {
                        assert(before[j] == entries@[j]);
                    }
                    lemma_entries_absent(before, key@);
                }
                let ghost cur = self.frozen_node_cache@;
                let added = self.frozen_node_cache.insert(key, node);
                i += 1;
                assert(self.frozen_node_cache@ =~= entries_map(
                    entries@.take(i as int),
                ).union_prefer_right(frozen0));
            }
            assert(entries@.take(entries@.len() as int) =~= entries@);
        }
        let mut stale = StaleNodeIndexBatch::new();
        core::mem::swap(&mut self.stale_node_index_cache, &mut stale);
        if self.frozen_stale_node_index_cache.is_empty() {
            core::mem::swap(&mut self.frozen_stale_node_index_cache, &mut stale);
            assert(self.frozen_stale_node_index_cache@ =~= stale@.union(
                self.frozen_stale_node_index_cache@,
            ));
        } else {
            let ghost frozen0 = self.frozen_stale_node_index_cache@;
            let marks = stale.entries();
            let mut i: usize = 0;
            assert(marks@.take(0) =~= Seq::<StaleNodeIndex>::empty());
            assert(self.frozen_stale_node_index_cache@ =~= frozen0.union(
                entries_set(marks@.take(0)),
            ));
            while i < marks.len()
                invariant
                    i <= marks@.len(),
                    self.frozen_stale_node_index_cache@ == frozen0.union(
                        entries_set(marks@.take(i as int)),
                    ),
                    self.reader == old(self).reader,
                    self.next_version == old(self).next_version,
                    self.root_node_key == old(self).root_node_key,
                    self.node_cache@ == Map::<NodeKeyView, NodeView>::empty(),
                    self.stale_node_index_cache@ == Set::<StaleNodeIndexView>::empty(),
                    self.frozen_node_cache@ == old(self).written(),
                decreases marks@.len() - i,
            {
                let version = marks[i].stale_since_version;
                let key = marks[i].node_key.clone();
                proof {
                    assert(marks@.take(i + 1).drop_last() =~= marks@.take(i as int));
                    assert(marks@.take(i + 1).last() == marks@[i as int]);
                }
                self.frozen_stale_node_index_cache.insert(version, key);
                i += 1;
                assert(self.frozen_stale_node_index_cache@ =~= frozen0.union(
                    entries_set(marks@.take(i as int)),
                ));
            }
            assert(marks@.take(marks@.len() as int) =~= marks@);
        }
    }

    /// Freezes what the batch has written so far. Where no node stands at
    /// the root yet, the empty node is written there first.
    pub fn freeze(&mut self) -> (r: Result<(), JmtError>)
        ensures
            final(self).store() == old(self).store(),
            final(self).reliable() == old(self).reliable(),
            final(self).version() == old(self).version(),
            final(self).root() == old(self).root(),
            old(self).written().contains_key(old(self).root()) || (old(self).reliable() && (old(
                self,
            ).store().contains_key(old(self).root()) || old(self).root().path.len() == 0)) ==>
                r is Ok,
            r matches Err(e) ==> {
                &&& final(self).live() == old(self).live()
                &&& final(self).stale() == old(self).stale()
                &&& final(self).frozen() == old(self).frozen()
                &&& final(self).frozen_stale() == old(self).frozen_stale()
                &&& match e {
                    JmtError::Reader => !old(self).reliable(),
                    JmtError::InvalidOperation => !old(self).nodes().contains_key(old(self).root())
                        && old(self).root().path.len() > 0,
                    _ => false,
                }
            },
            r is Ok ==> {
                &&& final(self).live() == Map::<NodeKeyView, NodeView>::empty()
                &&& final(self).stale() == Set::<StaleNodeIndexView>::empty()
                &&& final(self).frozen_stale() == old(self).all_stale()
                &&& final(self).frozen() == if old(self).nodes().contains_key(old(self).root()) {
                    old(self).written()
                } else {
                    old(self).written().insert(old(self).root(), NodeView::Null)
                }
                &&& final(self).nodes() == if old(self).nodes().contains_key(old(self).root()) {
                    old(self).nodes()
                } else {
                    old(self).nodes().insert(old(self).root(), NodeView::Null)
                }
            },
    {
        let root_node_key = self.root_node_key.clone();
        match self.get_node_option(&root_node_key) {
            Err(e) => {
                return Err(e);
            },
            Ok(Some(_)) => {},
            Ok(None) => {
                match self.put_node(root_node_key, Node::Null) {
                    Err(e) => {
                        return Err(e);
                    },
                    Ok(()) => {},
                }
            },
        }
        let ghost mid = self.written();
        self.merge_live();
        proof {
            assert(self.nodes() =~= old(self).store().union_prefer_right(mid));
            if old(self).nodes().contains_key(old(self).root()) {
                assert(mid =~= old(self).written());
            } else {
                assert(mid =~= old(self).written().insert(old(self).root(), NodeView::Null));
                assert(self.nodes() =~= old(self).nodes().insert(old(self).root(), NodeView::Null));
            }
        }
        Ok(())
    }

    /// Ends the batch: returns the key of the root, and all the nodes and
    /// stale marks that went through the cache, frozen or not.
    pub fn into(self) -> (r: (NodeKey, UpdateBatch))
        ensures
            r.0@ == self.root(),
            r.1.node_batch@ == self.written(),
            r.1.stale_node_index_batch@ == self.all_stale(),
    {
        let mut cache = self;
        cache.merge_live();
        (
            cache.root_node_key,
            UpdateBatch {
                node_batch: cache.frozen_node_cache,
                stale_node_index_batch: cache.frozen_stale_node_index_cache,
            },
        )
    }
}

} // verus!
