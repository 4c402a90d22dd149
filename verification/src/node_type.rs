//! The nodes of the tree, their keys, and how they are hashed.
use crate::hash::{
    hash_internal, hash_leaf, hash_value, sha256, spec_internal_hash, spec_leaf_hash, KeyHash,
    SPARSE_MERKLE_PLACEHOLDER_HASH,
};
use crate::types::nibble::nibble_path::NibblePath;
use crate::types::Version;
use vstd::prelude::*;

verus! {

/// What a node key stands for: the version that wrote the node, and the
/// nibbles that lead to it from the root.
pub ghost struct NodeKeyView {
    pub version: Version,
    pub path: Seq<u8>,
}

/// The name of a node: the version at which it was written and its path
/// from the root.
#[derive(Debug, PartialEq, Eq, Hash, PartialOrd, Ord)]
pub struct NodeKey {
    pub version: Version,
    pub nibble_path: NibblePath,
}

impl View for NodeKey {
    type V = NodeKeyView;

    open spec fn view(&self) -> NodeKeyView {
        NodeKeyView { version: self.version, path: self.nibble_path@ }
    }
}

impl Clone for NodeKey {
    fn clone(&self) -> (r: Self)
        ensures
            r@ == self@,
    {
        NodeKey { version: self.version, nibble_path: self.nibble_path.clone() }
    }
}

/// The key of the root that `version` wrote.
pub open spec fn root_key(version: Version) -> NodeKeyView {
    NodeKeyView { version, path: Seq::empty() }
}

impl NodeKey {
    /// The key of the node that `version` wrote at `nibble_path`.
    pub fn new(version: Version, nibble_path: NibblePath) -> (r: Self)
        ensures
            r@ == (NodeKeyView { version, path: nibble_path@ }),
    {
        NodeKey { version, nibble_path }
    }

    /// The key of the root that `version` wrote.
    pub fn new_empty_path(version: Version) -> (r: Self)
        ensures
            r@ == root_key(version),
    {
        NodeKey { version, nibble_path: NibblePath::empty() }
    }

    /// The version that wrote the node.
    pub fn version(&self) -> (v: Version)
        ensures
            v == self@.version,
    {
        self.version
    }

    /// The path of the node from the root.
    pub fn nibble_path(&self) -> (p: &NibblePath)
        ensures
            p@ == self@.path,
    {
        &self.nibble_path
    }

    /// The key of the child in slot `n`, as `version` wrote it.
    pub fn gen_child_node_key(&self, version: Version, n: u8) -> (r: Self)
        requires
            self@.path.len() < 64,
            n < 16,
        ensures
            r@ == (NodeKeyView { version, path: self@.path.push(n) }),
    {
        let mut path = self.nibble_path.clone();
        path.push(n);
        NodeKey { version, nibble_path: path }
    }

    /// Whether two keys name the same node.
    pub fn same(&self, other: &NodeKey) -> (r: bool)
        ensures
            r == (self@ == other@),
    {
        self.version == other.version && self.nibble_path.same(&other.nibble_path)
    }
}

/// What an inner node records of one of its children.
#[derive(Clone, Copy, Debug, PartialEq, Eq)]
pub struct Child {
    /// The hash of the child node.
    pub hash: [u8; 32],
    /// The version that wrote the child; with the path it gives the child's
    /// key.
    pub version: Version,
    /// Whether the child is a leaf.
    pub is_leaf: bool,
    /// The number of leaves in the subtree under the child; it stops at the
    /// greatest number that fits.
    pub leaf_count: usize,
}

/// The sum of two numbers, or the greatest number that fits where the sum
/// does not.
pub open spec fn sat_add(a: usize, b: usize) -> usize {
    if a + b > usize::MAX {
        usize::MAX
    } else {
        (a + b) as usize
    }
}

/// The number of leaves that a slot stands for.
pub open spec fn slot_leaves(slot: Option<Child>) -> usize {
    match slot {
        Some(c) => c.leaf_count,
        None => 0,
    }
}

/// The number of leaves that the `width` slots from `start` stand for
/// together; it stops at the greatest number that fits.
pub open spec fn leaves_in(ch: Seq<Option<Child>>, start: int, width: int) -> usize
    decreases width,
{
    if width <= 0 {
        0
    } else {
        sat_add(slot_leaves(ch[start]), leaves_in(ch, start + 1, width - 1))
    }
}

/// The hash that a slot contributes: the child's hash, or the placeholder
/// where the slot is empty.
pub open spec fn slot_hash(slot: Option<Child>) -> Seq<u8> {
    match slot {
        Some(c) => c.hash@,
        None => SPARSE_MERKLE_PLACEHOLDER_HASH@,
    }
}

/// The number of children in the `width` slots from `start`.
pub open spec fn count_in(ch: Seq<Option<Child>>, start: int, width: int) -> nat
    decreases width,
{
    if width <= 0 {
        0
    } else {
        count_in(ch, start + 1, width - 1) + if ch[start] is Some {
            1nat
        } else {
            0nat
        }
    }
}

/// The first occupied slot among the `width` slots from `start`, or
/// `start + width` where all of them are empty.
pub open spec fn first_slot_in(ch: Seq<Option<Child>>, start: int, width: int) -> int
    decreases width,
{
    if width <= 0 {
        start
    } else if ch[start] is Some {
        start
    } else {
        first_slot_in(ch, start + 1, width - 1)
    }
}

/// Whether the slots from `start` hold a single child, and that a leaf.
pub open spec fn single_leaf_in(ch: Seq<Option<Child>>, start: int, width: int) -> bool {
    count_in(ch, start, width) == 1 && ch[first_slot_in(ch, start, width)].unwrap().is_leaf
}

/// The hash of the binary subtree over the `width` slots from `start`. An
/// empty range hashes to the placeholder, a range that holds one leaf and
/// nothing else to that leaf's hash, and any other to the hash of its halves.
pub open spec fn range_hash(ch: Seq<Option<Child>>, start: int, width: int) -> Seq<u8>
    decreases width,
{
    if width <= 1 {
        slot_hash(ch[start])
    } else if count_in(ch, start, width) == 0 {
        SPARSE_MERKLE_PLACEHOLDER_HASH@
    } else if single_leaf_in(ch, start, width) {
        slot_hash(ch[first_slot_in(ch, start, width)])
    } else {
        spec_internal_hash(
            range_hash(ch, start, width / 2),
            range_hash(ch, start + width / 2, width / 2),
        )
    }
}

/// The slot at which the descent towards slot `n` ends in the `width` slots
/// from `start`: slot `n` itself, or the slot of the one leaf of a range, or
/// none where the range is empty.
pub open spec fn range_target(ch: Seq<Option<Child>>, start: int, width: int, n: int) -> Option<
    int,
>
    decreases width,
{
    if width <= 1 {
        if ch[start] is Some {
            Some(start)
        } else {
            None
        }
    } else if count_in(ch, start, width) == 0 {
        None
    } else if single_leaf_in(ch, start, width) {
        Some(first_slot_in(ch, start, width))
    } else if n < start + width / 2 {
        range_target(ch, start, width / 2, n)
    } else {
        range_target(ch, start + width / 2, width / 2, n)
    }
}

/// The hash at which the descent towards slot `n` ends.
pub open spec fn target_hash(ch: Seq<Option<Child>>, target: Option<int>) -> Seq<u8> {
    match target {
        Some(m) => slot_hash(ch[m]),
        None => SPARSE_MERKLE_PLACEHOLDER_HASH@,
    }
}

/// The hashes beside the descent towards slot `n` in the `width` slots
/// from `start`, the deepest first.
pub open spec fn range_siblings(ch: Seq<Option<Child>>, start: int, width: int, n: int) -> Seq<
    Seq<u8>,
>
    decreases width,
{
    if width <= 1 || count_in(ch, start, width) == 0 || single_leaf_in(ch, start, width) {
        Seq::empty()
    } else if n < start + width / 2 {
        range_siblings(ch, start, width / 2, n).push(
            range_hash(ch, start + width / 2, width / 2),
        )
    } else {
        range_siblings(ch, start + width / 2, width / 2, n).push(
            range_hash(ch, start, width / 2),
        )
    }
}

/// A range that holds a child has a first occupied slot, and a range with
/// one child holds no other.
pub proof fn lemma_first_slot_in(ch: Seq<Option<Child>>, start: int, width: int)
    requires
        0 <= width,
    ensures
        count_in(ch, start, width) <= width,
        start <= first_slot_in(ch, start, width) <= start + width,
        count_in(ch, start, width) > 0 <==> first_slot_in(ch, start, width) < start + width,
        count_in(ch, start, width) > 0 ==> ch[first_slot_in(ch, start, width)] is Some,
        forall|i: int| start <= i < first_slot_in(ch, start, width) ==> ch[i] is None,
        count_in(ch, start, width) == 0 ==> forall|i: int|
            start <= i < start + width ==> ch[i] is None,
        count_in(ch, start, width) == 1 ==> forall|i: int|
            start <= i < start + width && i != first_slot_in(ch, start, width) ==> ch[i] is None,
    decreases width,
{
    if width > 0 {
        lemma_first_slot_in(ch, start + 1, width - 1);
    }
}

/// The children of a range are those of its two halves.
pub proof fn lemma_count_split(ch: Seq<Option<Child>>, start: int, a: int, b: int)
    requires
        0 <= a,
        0 <= b,
    ensures
        count_in(ch, start, a + b) == count_in(ch, start, a) + count_in(ch, start + a, b),
    decreases a,
{
    if a > 0 {
        lemma_count_split(ch, start + 1, a - 1, b);
    }
}

/// The descent goes through at most as many levels as the range has.
pub proof fn lemma_range_siblings_len(ch: Seq<Option<Child>>, start: int, width: int, n: int)
    requires
        is_range_width(width),
    ensures
        range_siblings(ch, start, width, n).len() <= (if width == 16 {
            4int
        } else if width == 8 {
            3int
        } else if width == 4 {
            2int
        } else if width == 2 {
            1int
        } else {
            0int
        }),
    decreases width,
{
    if width <= 1 || count_in(ch, start, width) == 0 || single_leaf_in(ch, start, width) {
    } else if n < start + width / 2 {
        lemma_range_siblings_len(ch, start, width / 2, n);
    } else {
        lemma_range_siblings_len(ch, start + width / 2, width / 2, n);
    }
}

/// A descent that does not end at a leaf goes through all the levels below
/// its range.
pub proof fn lemma_range_full(ch: Seq<Option<Child>>, start: int, width: int, n: int)
    requires
        is_range_width(width),
        range_target(ch, start, width, n) matches Some(m) && !ch[m].unwrap().is_leaf,
    ensures
        range_siblings(ch, start, width, n).len() == (if width == 16 {
            4int
        } else if width == 8 {
            3int
        } else if width == 4 {
            2int
        } else if width == 2 {
            1int
        } else {
            0int
        }),
    decreases width,
{
    if width <= 1 {
    } else if count_in(ch, start, width) == 0 {
    } else if single_leaf_in(ch, start, width) {
    } else if n < start + width / 2 {
        lemma_range_full(ch, start, width / 2, n);
    } else {
        lemma_range_full(ch, start + width / 2, width / 2, n);
    }
}

/// Where the descent towards slot `n` ends: at slot `n` where it is
/// occupied, else at a leaf of the range, or nowhere.
pub proof fn lemma_range_target(ch: Seq<Option<Child>>, start: int, width: int, n: int)
    requires
        is_range_width(width),
        start <= n < start + width,
    ensures
        match range_target(ch, start, width, n) {
            Some(m) => start <= m < start + width && ch[m] is Some && (m == n || (ch[n] is None
                && ch[m].unwrap().is_leaf)),
            None => ch[n] is None,
        },
    decreases width,
{
    lemma_first_slot_in(ch, start, width);
    if width <= 1 {
    } else if count_in(ch, start, width) == 0 {
    } else if single_leaf_in(ch, start, width) {
    } else if n < start + width / 2 {
        lemma_range_target(ch, start, width / 2, n);
    } else {
        lemma_range_target(ch, start + width / 2, width / 2, n);
    }
}

/// The bytes of each hash in a list of hashes.
pub open spec fn hash_views(hashes: Seq<[u8; 32]>) -> Seq<Seq<u8>> {
    Seq::new(hashes.len(), |i: int| hashes[i]@)
}

/// Whether `width` is the width of a range of the binary tree in a node.
pub open spec fn is_range_width(width: int) -> bool {
    width == 1 || width == 2 || width == 4 || width == 8 || width == 16
}

/// An inner node of the tree: sixteen slots, one for each nibble.
#[derive(Clone, Copy, Debug, PartialEq, Eq)]
pub struct InternalNode {
    pub children: [Option<Child>; 16],
}

impl InternalNode {
    /// The hash of the node: that of the binary tree over its sixteen slots.
    pub open spec fn spec_hash(self) -> Seq<u8> {
        range_hash(self.children@, 0, 16)
    }

    /// The number of children of the node.
    pub open spec fn spec_num_children(self) -> nat {
        count_in(self.children@, 0, 16)
    }

    /// The number of leaves under the node, as its slots record it.
    pub open spec fn spec_leaf_count(self) -> usize {
        leaves_in(self.children@, 0, 16)
    }

    /// The number of leaves under the node, as its slots record it.
    pub fn leaf_count(&self) -> (n: usize)
        ensures
            n == self.spec_leaf_count(),
    {
        let mut total: usize = 0;
        let mut i: usize = 16;
        while i > 0
            invariant
                i <= 16,
                total == leaves_in(self.children@, i as int, 16 - i),
            decreases i,
        {
            i -= 1;
            let here: usize = match self.children[i] {
                Some(c) => c.leaf_count,
                None => 0,
            };
            total = if here > usize::MAX - total {
                usize::MAX
            } else {
                here + total
            };
        }
        total
    }

    /// A node without children, to be filled slot by slot.
    pub fn new() -> (r: Self)
        ensures
            forall|i: int| 0 <= i < 16 ==> r.children@[i] is None,
    {
        let none: Option<Child> = None;
        InternalNode { children: [none; 16] }
    }

    /// The child in slot `n`.
    pub fn child(&self, n: u8) -> (c: Option<Child>)
        requires
            n < 16,
        ensures
            c == self.children@[n as int],
    {
        self.children[n as usize]
    }

    /// Puts `child` in slot `n`.
    pub fn set_child(&mut self, n: u8, child: Option<Child>)
        requires
            n < 16,
        ensures
            final(self).children@ == old(self).children@.update(n as int, child),
    {
        self.children[n as usize] = child;
    }

    /// The greatest occupied slot below slot `n`.
    pub fn child_before(&self, n: u8) -> (r: Option<u8>)
        requires
            n <= 16,
        ensures
            match r {
                Some(j) => j < n && self.children@[j as int] is Some && forall|i: int|
                    j < i < n ==> self.children@[i] is None,
                None => forall|i: int| 0 <= i < n ==> self.children@[i] is None,
            },
    {
        let mut j: u8 = n;
        while j > 0
            invariant
                j <= n <= 16,
                forall|i: int| j <= i < n ==> self.children@[i] is None,
            decreases j,
        {
            j -= 1;
            if self.children[j as usize].is_some() {
                return Some(j);
            }
        }
        None
    }

    /// The least occupied slot at or above slot `n`.
    pub fn child_from(&self, n: u8) -> (r: Option<u8>)
        requires
            n <= 16,
        ensures
            match r {
                Some(j) => n <= j < 16 && self.children@[j as int] is Some && forall|i: int|
                    n <= i < j ==> self.children@[i] is None,
                None => forall|i: int| n <= i < 16 ==> self.children@[i] is None,
            },
    {
        let mut j: u8 = n;
        while j < 16
            invariant
                n <= j <= 16,
                forall|i: int| n <= i < j ==> self.children@[i] is None,
            decreases 16 - j,
        {
            if self.children[j as usize].is_some() {
                return Some(j);
            }
            j += 1;
        }
        None
    }

    /// Counts the children in a range of slots and finds the first of them.
    fn scan_range(&self, start: usize, width: usize) -> (r: (usize, usize))
        requires
            start + width <= 16,
        ensures
            r.0 == count_in(self.children@, start as int, width as int),
            r.1 == first_slot_in(self.children@, start as int, width as int),
            r.0 <= width,
            start <= r.1 <= start + width,
            r.0 > 0 <==> r.1 < start + width,
            r.0 > 0 ==> self.children@[r.1 as int] is Some,
    {
        let mut count: usize = 0;
        let mut first: usize = start + width;
        let mut i: usize = 0;
        while i < width
            invariant
                i <= width,
                start + width <= 16,
                count <= i,
                count_in(self.children@, start as int, width as int) == count + count_in(
                    self.children@,
                    start + i,
                    width - i,
                ),
                start <= first <= start + width,
                first < start + width ==> first < start + i,
                first_slot_in(self.children@, start as int, width as int) == (if first < start
                    + width {
                    first as int
                } else {
                    first_slot_in(self.children@, start + i, width - i)
                }),
            decreases width - i,
        {
            let slot = self.children[start + i];
            if slot.is_some() {
                count += 1;
                if first == start + width {
                    first = start + i;
                }
            }
            i += 1;
        }
        proof {
            lemma_first_slot_in(self.children@, start as int, width as int);
        }
        (count, first)
    }

    /// The number of children of the node.
    pub fn num_children(&self) -> (n: usize)
        ensures
            n == self.spec_num_children(),
            n <= 16,
    {
        self.scan_range(0, 16).0
    }

    /// The first occupied slot of the node, or 16 where it has no children.
    pub fn first_child_slot(&self) -> (n: usize)
        ensures
            n == first_slot_in(self.children@, 0, 16),
            n <= 16,
            n < 16 ==> self.children@[n as int] is Some,
    {
        let r = self.scan_range(0, 16);
        r.1
    }

    /// The hash of the binary subtree over a range of slots.
    fn hash_range(&self, start: usize, width: usize) -> (h: [u8; 32])
        requires
            start + width <= 16,
            is_range_width(width as int),
        ensures
            h@ == range_hash(self.children@, start as int, width as int),
        decreases width,
    {
        if width <= 1 {
            return match self.children[start] {
                Some(c) => c.hash,
                None => SPARSE_MERKLE_PLACEHOLDER_HASH,
            };
        }
        let (count, first) = self.scan_range(start, width);
        if count == 0 {
            return SPARSE_MERKLE_PLACEHOLDER_HASH;
        }
        if count == 1 {
            if let Some(c) = self.children[first] {
                if c.is_leaf {
                    return c.hash;
                }
            }
        }
        let half = width / 2;
        let left = self.hash_range(start, half);
        let right = self.hash_range(start + half, half);
        hash_internal(&left, &right)
    }

    /// Computes the hash of the node.
    pub fn hash(&self) -> (h: [u8; 32])
        ensures
            h@ == self.spec_hash(),
    {
        self.hash_range(0, 16)
    }

    /// Descends a range of slots towards slot `n`: returns the slot at which
    /// the descent ends, and puts the hashes beside it into `siblings`, the
    /// deepest first.
    fn descend_range(&self, start: usize, width: usize, n: usize, siblings: &mut Vec<[u8; 32]>) ->
        (t:
        Option<usize>)
        requires
            start + width <= 16,
            is_range_width(width as int),
            old(siblings)@.len() == 0,
        ensures
            match t {
                Some(m) => range_target(self.children@, start as int, width as int, n as int)
                    == Some(m as int),
                None => range_target(self.children@, start as int, width as int, n as int)
                    is None,
            },
            hash_views(final(siblings)@) == range_siblings(
                self.children@,
                start as int,
                width as int,
                n as int,
            ),
            final(siblings)@.len() <= 4,
            width <= 8 ==> final(siblings)@.len() <= 3,
            width <= 4 ==> final(siblings)@.len() <= 2,
            width <= 2 ==> final(siblings)@.len() <= 1,
            width <= 1 ==> final(siblings)@.len() == 0,
        decreases width,
    {
        if width <= 1 {
            assert(hash_views(siblings@) =~= Seq::<Seq<u8>>::empty());
            return if self.children[start].is_some() {
                Some(start)
            } else {
                None
            };
        }
        let (count, first) = self.scan_range(start, width);
        if count == 0 {
            assert(hash_views(siblings@) =~= Seq::<Seq<u8>>::empty());
            return None;
        }
        if count == 1 {
            if let Some(c) = self.children[first] {
                if c.is_leaf {
                    assert(hash_views(siblings@) =~= Seq::<Seq<u8>>::empty());
                    return Some(first);
                }
            }
        }
        let half = width / 2;
        if n < start + half {
            let t = self.descend_range(start, half, n, siblings);
            let ghost below = siblings@;
            let sibling = self.hash_range(start + half, half);
            siblings.push(sibling);
            assert(hash_views(siblings@) =~= hash_views(below).push(sibling@));
            t
        } else {
            let t = self.descend_range(start + half, half, n, siblings);
            let ghost below = siblings@;
            let sibling = self.hash_range(start, half);
            siblings.push(sibling);
            assert(hash_views(siblings@) =~= hash_views(below).push(sibling@));
            t
        }
    }

    /// Descends the binary tree of the node towards slot `n`. Returns the
    /// slot at which the descent ends (slot `n`, or that of the one leaf of
    /// the last range, or nothing where that range is empty) and the hashes
    /// beside the descent, the deepest first.
    pub fn get_child_with_siblings(&self, n: u8) -> (r: (Option<u8>, Vec<[u8; 32]>))
        requires
            n < 16,
        ensures
            match r.0 {
                Some(m) => range_target(self.children@, 0, 16, n as int) == Some(m as int) && m
                    < 16 && self.children@[m as int] is Some && (m == n || (
                self.children@[n as int] is None && self.children@[m as int].unwrap().is_leaf)),
                None => range_target(self.children@, 0, 16, n as int) is None
                    && self.children@[n as int] is None,
            },
            hash_views(r.1@) == range_siblings(self.children@, 0, 16, n as int),
            r.1@.len() <= 4,
    {
        let mut siblings: Vec<[u8; 32]> = Vec::new();
        let t = self.descend_range(0, 16, n as usize, &mut siblings);
        proof {
            lemma_range_target(self.children@, 0, 16, n as int);
        }
        match t {
            Some(m) => (Some(m as u8), siblings),
            None => (None, siblings),
        }
    }
}

/// What a leaf stands for: a key hash, the hash of its value, and the value.
pub ghost struct LeafNodeView {
    pub key_hash: KeyHash,
    pub value_hash: [u8; 32],
    pub value: Seq<u8>,
}

/// A leaf of the tree: a key hash with its value and the value's hash.
#[derive(Debug, PartialEq, Eq)]
pub struct LeafNode {
    key_hash: KeyHash,
    value_hash: [u8; 32],
    value: Vec<u8>,
}

impl View for LeafNode {
    type V = LeafNodeView;

    closed spec fn view(&self) -> LeafNodeView {
        LeafNodeView { key_hash: self.key_hash, value_hash: self.value_hash, value: self.value@ }
    }
}

impl Clone for LeafNode {
    fn clone(&self) -> (r: Self)
        ensures
            r@ == self@,
    {
        proof {
            use_type_invariant(self);
        }
        let value = self.value.clone();
        assert(value@ =~= self.value@);
        LeafNode { key_hash: self.key_hash, value_hash: self.value_hash, value }
    }
}

impl LeafNodeView {
    /// The hash of the leaf.
    pub open spec fn spec_hash(self) -> Seq<u8> {
        spec_leaf_hash(self.key_hash.0@, self.value_hash@)
    }
}

impl LeafNode {
    #[verifier::type_invariant]
    spec fn inv(self) -> bool {
        self.value_hash@ == sha256(self.value@)
    }

    /// The leaf that binds `key_hash` to `value`.
    pub fn new(key_hash: KeyHash, value: Vec<u8>) -> (r: Self)
        ensures
            r@.key_hash == key_hash,
            r@.value == value@,
            r@.value_hash@ == sha256(value@),
    {
        let value_hash = hash_value(value.as_slice());
        LeafNode { key_hash, value_hash, value }
    }

    /// The key hash of the leaf.
    pub fn key_hash(&self) -> (k: KeyHash)
        ensures
            k == self@.key_hash,
    {
        self.key_hash
    }

    /// The hash of the value of the leaf.
    pub fn value_hash(&self) -> (h: [u8; 32])
        ensures
            h == self@.value_hash,
            h@ == sha256(self@.value),
    {
        proof {
            use_type_invariant(self);
        }
        self.value_hash
    }

    /// The value of the leaf.
    pub fn value(&self) -> (v: &Vec<u8>)
        ensures
            v@ == self@.value,
    {
        &self.value
    }

    /// Computes the hash of the leaf.
    pub fn hash(&self) -> (h: [u8; 32])
        ensures
            h@ == self@.spec_hash(),
    {
        hash_leaf(&self.key_hash.0, &self.value_hash)
    }
}

/// What a node stands for.
pub ghost enum NodeView {
    Null,
    Internal(InternalNode),
    Leaf(LeafNodeView),
}

impl NodeView {
    /// The number of leaves under the node, as it records it.
    pub open spec fn spec_leaf_count(self) -> usize {
        match self {
            NodeView::Null => 0,
            NodeView::Internal(n) => n.spec_leaf_count(),
            NodeView::Leaf(_) => 1,
        }
    }

    /// The hash of the node; that of the empty tree is the placeholder.
    pub open spec fn spec_hash(self) -> Seq<u8> {
        match self {
            NodeView::Null => SPARSE_MERKLE_PLACEHOLDER_HASH@,
            NodeView::Internal(n) => n.spec_hash(),
            NodeView::Leaf(l) => l.spec_hash(),
        }
    }
}

/// A node of the tree, with the counts of leaves that its slots carry.
pub type AugmentedNode = Node;

/// A node of the tree.
#[derive(Debug, PartialEq, Eq)]
pub enum Node {
    /// The empty tree; it stands at the root only.
    Null,
    /// An inner node with up to sixteen children.
    Internal(InternalNode),
    /// A leaf with a key hash and a value.
    Leaf(LeafNode),
}

impl View for Node {
    type V = NodeView;

    open spec fn view(&self) -> NodeView {
        match self {
            Node::Null => NodeView::Null,
            Node::Internal(n) => NodeView::Internal(*n),
            Node::Leaf(l) => NodeView::Leaf(l@),
        }
    }
}

impl Clone for Node {
    fn clone(&self) -> (r: Self)
        ensures
            r@ == self@,
    {
        match self {
            Node::Null => Node::Null,
            Node::Internal(n) => Node::Internal(*n),
            Node::Leaf(l) => Node::Leaf(l.clone()),
        }
    }
}

impl Node {
    /// The node of the empty tree.
    pub fn new_null() -> (r: Self)
        ensures
            r@ == NodeView::Null,
    {
        Node::Null
    }

    /// A leaf that binds `key_hash` to `value`.
    pub fn new_leaf(key_hash: KeyHash, value: Vec<u8>) -> (r: Self)
        ensures
            r@ matches NodeView::Leaf(l) && l.key_hash == key_hash && l.value == value@
                && l.value_hash@ == sha256(value@),
    {
        Node::Leaf(LeafNode::new(key_hash, value))
    }

    /// Whether the node is a leaf.
    pub fn is_leaf(&self) -> (r: bool)
        ensures
            r == (self@ is Leaf),
    {
        matches!(self, Node::Leaf(_))
    }

    /// The number of leaves under the node, as it records it.
    pub fn leaf_count(&self) -> (n: usize)
        ensures
            n == self@.spec_leaf_count(),
    {
        match self {
            Node::Null => 0,
            Node::Internal(n) => n.leaf_count(),
            Node::Leaf(_) => 1,
        }
    }

    /// Computes the hash of the node.
    pub fn hash(&self) -> (h: [u8; 32])
        ensures
            h@ == self@.spec_hash(),
    {
        match self {
            Node::Null => SPARSE_MERKLE_PLACEHOLDER_HASH,
            Node::Internal(n) => n.hash(),
            Node::Leaf(l) => l.hash(),
        }
    }
}

} // verus!
