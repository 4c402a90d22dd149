//! What the tree reads from and hands to its backing store.
use crate::hash::{sha256, KeyHash};
use crate::node_type::{LeafNode, Node, NodeKey, NodeKeyView, NodeView};
use crate::types::Version;
use vstd::prelude::*;

verus! {

/// Why an operation on the tree failed.
#[derive(Debug, PartialEq, Eq)]
pub enum JmtError {
    /// Neither the cache nor the store holds the node with this key.
    MissingNode(NodeKey),
    /// The store has no preimage for the key hash of a leaf.
    MissingPreimage,
    /// A leaf that a proof was built on has no value in the tree.
    MissingValue,
    /// A node was written a second time, or the empty node was written
    /// below the root, or a proof was asked of the empty tree.
    InvalidOperation,
    /// The store failed to read.
    Reader,
}

/// A store of nodes that the tree reads.
pub trait TreeReader {
    /// The nodes that the store holds. Stated by each store; a store that
    /// states nothing holds none.
    open spec fn nodes(&self) -> Map<NodeKeyView, NodeView> {
        Map::empty()
    }

    /// Whether no read of the store fails. Stated by each store; a store
    /// that states nothing may fail.
    open spec fn reliable(&self) -> bool {
        false
    }

    /// Reads the node with the given key, if the store holds one.
    fn get_node_option(&self, node_key: &NodeKey) -> (r: Result<Option<Node>, JmtError>)
        ensures
            self.reliable() ==> r is Ok,
            r matches Err(e) ==> e is Reader,
            r matches Ok(Some(n)) ==>
                self.nodes().contains_key(node_key@) && self.nodes()[node_key@]
                == n@,
            r matches Ok(None) ==> !self.nodes().contains_key(node_key@),
    ;

    /// Reads the leaf with the greatest key hash among all the leaves that
    /// the store holds, of any version.
    fn get_rightmost_leaf(&self) -> (r: Result<Option<(NodeKey, LeafNode)>, JmtError>)
        ensures
            self.reliable() ==> r is Ok,
            r matches Err(e) ==> e is Reader,
            r matches Ok(Some(found)) ==> {
                &&& self.nodes().contains_key(found.0@)
                &&& self.nodes()[found.0@] == NodeView::Leaf(found.1@)
                &&& forall|k: NodeKeyView|
                    self.nodes().contains_key(k) ==>
                        (#[trigger] self.nodes()[k] matches NodeView::Leaf(
                        l,
                    ) ==> !found.1@.key_hash.spec_lt(l.key_hash))
            },
            r matches Ok(None) ==> forall|k: NodeKeyView|
                self.nodes().contains_key(k) ==> !(#[trigger] self.nodes()[k] is Leaf),
    ;
}

/// A store of nodes that takes what a batch hands over.
pub trait TreeWriter: TreeReader {
    /// Writes the nodes and stale node marks of a batch, all of them or
    /// none.
    fn write_tree_update_batch(&mut self, batch: UpdateBatch) -> (r: Result<(), JmtError>)
        ensures
            r is Ok ==> final(self).nodes() == old(self).nodes().union_prefer_right(
                batch.node_batch@,
            ),
            r is Err ==> final(self).nodes() == old(self).nodes(),
            final(self).reliable() == old(self).reliable(),
    ;
}

/// A store that knows the keys whose hashes are in the tree.
pub trait HasPreimage {
    /// The keys that the store knows, by their hashes. Stated by each
    /// store; a store that states nothing knows none.
    open spec fn preimages(&self) -> Map<KeyHash, Seq<u8>> {
        Map::empty()
    }

    /// Whether no lookup of a preimage fails. Stated by each store; a store
    /// that states nothing may fail.
    open spec fn preimage_reliable(&self) -> bool {
        false
    }

    /// Looks up the key that hashes to `key_hash`.
    fn preimage(&self, key_hash: KeyHash) -> (r: Result<Option<Vec<u8>>, JmtError>)
        ensures
            self.preimage_reliable() ==> r is Ok,
            r matches Err(e) ==> e is Reader,
            r matches Ok(Some(p)) ==> self.preimages().contains_key(key_hash)
                && self.preimages()[key_hash] == p@ && sha256(p@) == key_hash.0@,
            r matches Ok(None) ==> !self.preimages().contains_key(key_hash),
    ;
}

/// The map that a list of nodes with their keys stands for; where a key
/// comes twice, the later entry counts.
pub open spec fn entries_map(s: Seq<(NodeKey, Node)>) -> Map<NodeKeyView, NodeView>
    decreases s.len(),
{
    if s.len() == 0 {
        Map::empty()
    } else {
        entries_map(s.drop_last()).insert(s.last().0@, s.last().1@)
    }
}

/// A key that no entry has is not in the map.
pub proof fn lemma_entries_absent(s: Seq<(NodeKey, Node)>, k: NodeKeyView)
    requires
        forall|j: int| 0 <= j < s.len() ==> (#[trigger] s[j]).0@ != k,
    ensures
        !entries_map(s).contains_key(k),
    decreases s.len(),
{
    if s.len() > 0 {
        lemma_entries_absent(s.drop_last(), k);
    }
}

/// The last entry with a key gives the node of that key.
pub proof fn lemma_entries_found(s: Seq<(NodeKey, Node)>, i: int, k: NodeKeyView)
    requires
        0 <= i < s.len(),
        s[i].0@ == k,
        forall|j: int| i < j < s.len() ==> (#[trigger] s[j]).0@ != k,
    ensures
        entries_map(s).contains_key(k),
        entries_map(s)[k] == s[i].1@,
    decreases s.len(),
{
    if i < s.len() - 1 {
        lemma_entries_found(s.drop_last(), i, k);
    }
}

/// Every key of the map is the key of an entry.
pub proof fn lemma_entries_dom(s: Seq<(NodeKey, Node)>, k: NodeKeyView)
    requires
        entries_map(s).contains_key(k),
    ensures
        exists|j: int| 0 <= j < s.len() && (#[trigger] s[j]).0@ == k,
    decreases s.len(),
{
    if s.len() > 0 {
        if s.last().0@ != k {
            lemma_entries_dom(s.drop_last(), k);
            let j = choose|j: int| 0 <= j < s.drop_last().len() &&
                (#[trigger] s.drop_last()[j]).0@ == k;
            assert(s[j].0@ == k);
        }
    }
}

/// The map of a list of nodes has as many keys as the list has entries,
/// where no key comes twice in the list; it is finite in any case.
pub proof fn lemma_entries_len(s: Seq<(NodeKey, Node)>)
    ensures
        entries_map(s).dom().finite(),
        (forall|i: int, j: int| 0 <= i < j < s.len() ==>
            (#[trigger] s[i]).0@ != (#[trigger] s[j]).0@)
            ==> entries_map(s).dom().len() == s.len(),
    decreases s.len(),
{
    broadcast use vstd::set::group_set_axioms;

    if s.len() > 0 {
        let before = s.drop_last();
        lemma_entries_len(before);
        assert(entries_map(s).dom() =~= entries_map(before).dom().insert(s.last().0@));
        if forall|i: int, j: int|
            0 <= i < j < s.len() ==> (#[trigger] s[i]).0@ != (#[trigger] s[j]).0@ {
            assert forall|i: int, j: int| 0 <= i < j < before.len()
                implies (#[trigger] before[i]).0@
                != (#[trigger] before[j]).0@ by {
                assert(s[i].0@ != s[j].0@);
            }
            assert forall|j: int| 0 <= j < before.len() implies (#[trigger] before[j]).0@
                != s.last().0@ by {
                assert(s[j].0@ != s[s.len() - 1].0@);
            }
            lemma_entries_absent(before, s.last().0@);
        }
    } else {
        assert(entries_map(s).dom() =~= Set::<NodeKeyView>::empty());
    }
}

/// A set of new nodes, each under its key; no key comes twice.
pub struct NodeBatch {
    entries: Vec<(NodeKey, Node)>,
}

impl View for NodeBatch {
    type V = Map<NodeKeyView, NodeView>;

    closed spec fn view(&self) -> Map<NodeKeyView, NodeView> {
        entries_map(self.entries@)
    }
}

impl NodeBatch {
    #[verifier::type_invariant]
    spec fn inv(self) -> bool {
        forall|i: int, j: int|
            0 <= i < j < self.entries@.len() ==> (#[trigger] self.entries@[i]).0@ != (
            #[trigger] self.entries@[j]).0@
    }

    /// The number of nodes in the batch.
    pub closed spec fn spec_len(&self) -> nat {
        self.entries@.len()
    }

    /// A batch without nodes.
    pub fn new() -> (r: Self)
        ensures
            r@ == Map::<NodeKeyView, NodeView>::empty(),
            r.spec_len() == 0,
    {
        NodeBatch { entries: Vec::new() }
    }

    /// A batch holds finitely many nodes.
    pub proof fn lemma_finite(self)
        ensures
            self@.dom().finite(),
    {
        lemma_entries_len(self.entries@);
    }

    /// The number of nodes in the batch.
    pub fn len(&self) -> (n: usize)
        ensures
            n == self.spec_len(),
            n == self@.dom().len(),
            self@.dom().finite(),
    {
        proof {
            use_type_invariant(self);
            lemma_entries_len(self.entries@);
        }
        self.entries.len()
    }

    /// Whether the batch holds no node.
    pub fn is_empty(&self) -> (r: bool)
        ensures
            r == (self.spec_len() == 0),
            r ==> self@ == Map::<NodeKeyView, NodeView>::empty(),
    {
        self.entries.len() == 0
    }

    /// The nodes of the batch with their keys, in the order in which they
    /// were put in.
    pub fn nodes(&self) -> (r: &Vec<(NodeKey, Node)>)
        ensures
            r@.len() == self.spec_len(),
            entries_map(r@) == self@,
            forall|i: int, j: int| 0 <= i < j < r@.len() ==>
                (#[trigger] r@[i]).0@ != (#[trigger] r@[j]).0@,
    {
        proof {
            use_type_invariant(self);
        }
        &self.entries
    }

    /// The node under `key`, if the batch holds one.
    pub fn get(&self, key: &NodeKey) -> (r: Option<&Node>)
        ensures
            match r {
                Some(n) => self@.contains_key(key@) && self@[key@] == n@,
                None => !self@.contains_key(key@),
            },
    {
        proof {
            use_type_invariant(self);
        }
        let mut i: usize = 0;
        while i < self.entries.len()
            invariant
                i <= self.entries@.len(),
                forall|j: int| 0 <= j < i ==> (#[trigger] self.entries@[j]).0@ != key@,
                forall|a: int, b: int|
                    0 <= a < b < self.entries@.len() ==> (#[trigger] self.entries@[a]).0@ != (
                    #[trigger] self.entries@[b]).0@,
            decreases self.entries@.len() - i,
        {
            if self.entries[i].0.same(key) {
                proof {
                    lemma_entries_found(self.entries@, i as int, key@);
                }
                return Some(&self.entries[i].1);
            }
            i += 1;
        }
        proof {
            lemma_entries_absent(self.entries@, key@);
        }
        None
    }

    /// Whether the batch holds a node under `key`.
    pub fn contains_key(&self, key: &NodeKey) -> (r: bool)
        ensures
            r == self@.contains_key(key@),
    {
        self.get(key).is_some()
    }

    /// Puts `node` under `key`, unless the batch holds a node under that key
    /// already; says whether it did.
    pub fn insert(&mut self, key: NodeKey, node: Node) -> (added: bool)
        ensures
            added == !old(self)@.contains_key(key@),
            added ==> final(self)@ == old(self)@.insert(key@, node@) && final(self).spec_len()
                == old(self).spec_len() + 1,
            !added ==> final(self)@ == old(self)@ && final(self).spec_len() == old(self).spec_len(),
    {
        proof {
            use_type_invariant(&*self);
        }
        if self.contains_key(&key) {
            return false;
        }
        proof {
            let s = self.entries@;
            assert forall|j: int| 0 <= j < s.len() implies (#[trigger] s[j]).0@ != key@ by {
                if s[j].0@ == key@ {
                    let last = choose|m: int| 0 <= m < s.len() && (#[trigger] s[m]).0@ == key@ &&
                        forall|
                        q: int,
                    | m < q < s.len() ==> (#[trigger] s[q]).0@ != key@;
                    lemma_entries_found(s, last, key@);
                }
            }
            assert(s.push((key, node)).drop_last() =~= s);
        }
        let mut entries: Vec<(NodeKey, Node)> = Vec::new();
        core::mem::swap(&mut self.entries, &mut entries);
        entries.push((key, node));
        core::mem::swap(&mut self.entries, &mut entries);
        true
    }
}

/// The mark that a node is no longer part of the tree since a version.
#[derive(Debug, PartialEq, Eq)]
pub struct StaleNodeIndex {
    /// The version at which the node left the tree.
    pub stale_since_version: Version,
    /// The key of the node.
    pub node_key: NodeKey,
}

/// What a stale node mark stands for.
pub ghost struct StaleNodeIndexView {
    pub stale_since_version: Version,
    pub node_key: NodeKeyView,
}

impl View for StaleNodeIndex {
    type V = StaleNodeIndexView;

    open spec fn view(&self) -> StaleNodeIndexView {
        StaleNodeIndexView {
            stale_since_version: self.stale_since_version,
            node_key: self.node_key@,
        }
    }
}

/// The set that a list of stale node marks stands for.
pub open spec fn entries_set(s: Seq<StaleNodeIndex>) -> Set<StaleNodeIndexView>
    decreases s.len(),
{
    if s.len() == 0 {
        Set::empty()
    } else {
        entries_set(s.drop_last()).insert(s.last()@)
    }
}

/// The set holds the marks of the list, and no others.
pub proof fn lemma_entries_set(s: Seq<StaleNodeIndex>, x: StaleNodeIndexView)
    ensures
        entries_set(s).contains(x) <==> exists|j: int| 0 <= j < s.len() && (#[trigger] s[j])@ == x,
    decreases s.len(),
{
    if s.len() > 0 {
        lemma_entries_set(s.drop_last(), x);
        if entries_set(s).contains(x) {
            if s.last()@ == x {
                assert(s[s.len() - 1]@ == x);
            } else {
                let j = choose|j: int| 0 <= j < s.drop_last().len() &&
                    (#[trigger] s.drop_last()[j])@ == x;
                assert(s[j]@ == x);
            }
        } else {
            assert forall|j: int| 0 <= j < s.len() implies (#[trigger] s[j])@ != x by {
                if j < s.len() - 1 {
                    assert(s.drop_last()[j]@ == s[j]@);
                }
            }
        }
    }
}

/// The set of a list of stale node marks has as many marks as the list has
/// entries, where no mark comes twice in the list; it is finite in any
/// case.
pub proof fn lemma_entries_set_len(s: Seq<StaleNodeIndex>)
    ensures
        entries_set(s).finite(),
        (forall|i: int, j: int| 0 <= i < j < s.len() ==> (#[trigger] s[i])@ != (#[trigger] s[j])@)
            ==> entries_set(s).len() == s.len(),
    decreases s.len(),
{
    broadcast use vstd::set::group_set_axioms;

    if s.len() > 0 {
        let before = s.drop_last();
        lemma_entries_set_len(before);
        if forall|i: int, j: int| 0 <= i < j < s.len() ==>
            (#[trigger] s[i])@ != (#[trigger] s[j])@ {
            assert forall|i: int, j: int| 0 <= i < j < before.len() implies (#[trigger] before[i])@
                != (#[trigger] before[j])@ by {
                assert(s[i]@ != s[j]@);
            }
            lemma_entries_set(before, s.last()@);
            if entries_set(before).contains(s.last()@) {
                let j = choose|j: int| 0 <= j < before.len() &&
                    (#[trigger] before[j])@ == s.last()@;
                assert(s[j]@ != s[s.len() - 1]@);
            }
        }
    }
}

/// A set of stale node marks; no mark comes twice.
pub struct StaleNodeIndexBatch {
    entries: Vec<StaleNodeIndex>,
}

impl View for StaleNodeIndexBatch {
    type V = Set<StaleNodeIndexView>;

    closed spec fn view(&self) -> Set<StaleNodeIndexView> {
        entries_set(self.entries@)
    }
}

impl StaleNodeIndexBatch {
    #[verifier::type_invariant]
    spec fn inv(self) -> bool {
        forall|i: int, j: int|
            0 <= i < j < self.entries@.len() ==> (#[trigger] self.entries@[i])@ != (
            #[trigger] self.entries@[j])@
    }

    /// The number of marks in the set.
    pub closed spec fn spec_len(&self) -> nat {
        self.entries@.len()
    }

    /// The empty set of marks.
    pub fn new() -> (r: Self)
        ensures
            r@ == Set::<StaleNodeIndexView>::empty(),
            r.spec_len() == 0,
    {
        StaleNodeIndexBatch { entries: Vec::new() }
    }

    /// A set of marks is finite.
    pub proof fn lemma_finite(self)
        ensures
            self@.finite(),
    {
        lemma_entries_set_len(self.entries@);
    }

    /// The number of marks in the set.
    pub fn len(&self) -> (n: usize)
        ensures
            n == self.spec_len(),
            n == self@.len(),
            self@.finite(),
    {
        proof {
            use_type_invariant(self);
            lemma_entries_set_len(self.entries@);
        }
        self.entries.len()
    }

    /// Whether the set holds no mark.
    pub fn is_empty(&self) -> (r: bool)
        ensures
            r == (self.spec_len() == 0),
            r ==> self@ == Set::<StaleNodeIndexView>::empty(),
    {
        self.entries.len() == 0
    }

    /// The marks of the set, in the order in which they were put in.
    pub fn entries(&self) -> (r: &Vec<StaleNodeIndex>)
        ensures
            r@.len() == self.spec_len(),
            entries_set(r@) == self@,
            forall|i: int, j: int| 0 <= i < j < r@.len() ==>
                (#[trigger] r@[i])@ != (#[trigger] r@[j])@,
    {
        proof {
            use_type_invariant(self);
        }
        &self.entries
    }

    /// Whether the set holds the mark of `node_key` at `stale_since_version`.
    pub fn contains(&self, stale_since_version: Version, node_key: &NodeKey) -> (r: bool)
        ensures
            r == self@.contains(
                StaleNodeIndexView { stale_since_version, node_key: node_key@ },
            ),
    {
        let ghost x = StaleNodeIndexView { stale_since_version, node_key: node_key@ };
        let mut i: usize = 0;
        while i < self.entries.len()
            invariant
                i <= self.entries@.len(),
                x == (StaleNodeIndexView { stale_since_version, node_key: node_key@ }),
                forall|j: int| 0 <= j < i ==> (#[trigger] self.entries@[j])@ != x,
            decreases self.entries@.len() - i,
        {
            if self.entries[i].stale_since_version == stale_since_version
                && self.entries[i].node_key.same(node_key) {
                proof {
                    assert(self.entries@[i as int]@ == x);
                    lemma_entries_set(self.entries@, x);
                }
                return true;
            }
            i += 1;
        }
        proof {
            lemma_entries_set(self.entries@, x);
        }
        false
    }

    /// Adds the mark of `node_key` at `stale_since_version` to the set.
    pub fn insert(&mut self, stale_since_version: Version, node_key: NodeKey) -> (added: bool)
        ensures
            final(self)@ == old(self)@.insert(
                StaleNodeIndexView { stale_since_version, node_key: node_key@ },
            ),
            added == !old(self)@.contains(
                StaleNodeIndexView { stale_since_version, node_key: node_key@ },
            ),
            final(self).spec_len() == old(self).spec_len() + if added {
                1nat
            } else {
                0nat
            },
    {
        proof {
            use_type_invariant(&*self);
        }
        let ghost x = StaleNodeIndexView { stale_since_version, node_key: node_key@ };
        if self.contains(stale_since_version, &node_key) {
            assert(self@.insert(x) =~= self@);
            return false;
        }
        proof {
            let s = self.entries@;
            lemma_entries_set(s, x);
            assert(s.push(StaleNodeIndex { stale_since_version, node_key }).drop_last() =~= s);
        }
        let mut entries: Vec<StaleNodeIndex> = Vec::new();
        core::mem::swap(&mut self.entries, &mut entries);
        entries.push(StaleNodeIndex { stale_since_version, node_key });
        core::mem::swap(&mut self.entries, &mut entries);
        true
    }
}

/// What a batch hands to the store, to be written as one: the new nodes,
/// and the marks of the nodes that are no longer part of the tree.
pub struct UpdateBatch {
    pub node_batch: NodeBatch,
    pub stale_node_index_batch: StaleNodeIndexBatch,
}

} // verus!
