//! What a store of nodes means: which trees in it are well formed, and
//! which value such a tree holds for a key.
use crate::hash::{lemma_nibble_bound, sha256, KeyHash};
use crate::node_type::{
    count_in, first_slot_in, is_range_width, lemma_count_split, lemma_first_slot_in, range_hash,
    range_siblings, range_target, single_leaf_in, Child, InternalNode, NodeKeyView, NodeView,
};
use vstd::prelude::*;

verus! {

/// The key of the child `c` in slot `i` of the node at `path`.
pub open spec fn child_key(c: Child, path: Seq<u8>, i: int) -> NodeKeyView {
    NodeKeyView { version: c.version, path: path.push(i as u8) }
}

/// Whether an inner node has a child, and not just one child that is a leaf.
pub open spec fn compact(children: Seq<Option<Child>>) -> bool {
    count_in(children, 0, 16) >= 1 && !single_leaf_in(children, 0, 16)
}

/// Whether what slot `i` of the node at `path` records of its child `c`
/// agrees with the node that `nodes` holds under the child's key: its
/// hash, its kind, and the number of leaves under it.
pub open spec fn child_agrees(
    nodes: Map<NodeKeyView, NodeView>,
    c: Child,
    path: Seq<u8>,
    i: int,
) -> bool {
    let k = child_key(c, path, i);
    &&& nodes.contains_key(k)
    &&& !(nodes[k] is Null)
    &&& c.hash@ == nodes[k].spec_hash()
    &&& c.is_leaf == (nodes[k] is Leaf)
    &&& c.leaf_count == nodes[k].spec_leaf_count()
}

/// Whether `node`, standing at `path`, is the root of a well-formed subtree
/// in `nodes`: a leaf stands on the way to its own key and carries the hash
/// of its value; an inner node is compact, and each of its children is in
/// `nodes`, is as the node records it, and is well formed in turn.
pub open spec fn node_wf(
    nodes: Map<NodeKeyView, NodeView>,
    node: NodeView,
    path: Seq<u8>,
) -> bool
    decreases 64 - path.len(),
{
    match node {
        NodeView::Null => path.len() == 0,
        NodeView::Leaf(l) => path.len() <= 64 && l.key_hash.nibbles(path.len() as int) == path
            && l.value_hash@ == sha256(l.value),
        NodeView::Internal(n) => path.len() < 64 && compact(n.children@) && forall|i: int|
            0 <= i < 16 ==> ((#[trigger] n.children@[i]) matches Some(c) ==> child_agrees(
                nodes,
                c,
                path,
                i,
            ) && node_wf(nodes, nodes[child_key(c, path, i)], path.push(i as u8))),
    }
}

/// Whether `nodes` holds a well-formed tree under the root key `root`.
pub open spec fn tree_wf(nodes: Map<NodeKeyView, NodeView>, root: NodeKeyView) -> bool {
    root.path.len() == 0 && nodes.contains_key(root) && node_wf(nodes, nodes[root], root.path)
}

/// The value that the subtree under `node`, which stands at depth `depth`
/// on the way to `key`, holds for `key`.
pub open spec fn lookup_node(
    nodes: Map<NodeKeyView, NodeView>,
    node: NodeView,
    depth: int,
    key: KeyHash,
) -> Option<Seq<u8>>
    decreases 64 - depth,
{
    match node {
        NodeView::Null => None,
        NodeView::Leaf(l) => if l.key_hash == key {
            Some(l.value)
        } else {
            None
        },
        NodeView::Internal(n) => if 0 <= depth < 64 {
            match n.children@[key.nibble(depth) as int] {
                None => None,
                Some(c) => {
                    let k = child_key(c, key.nibbles(depth), key.nibble(depth) as int);
                    if nodes.contains_key(k) {
                        lookup_node(nodes, nodes[k], depth + 1, key)
                    } else {
                        None
                    }
                },
            }
        } else {
            None
        },
    }
}

/// The value that the tree under the root key `root` holds for `key`.
pub open spec fn lookup(nodes: Map<NodeKeyView, NodeView>, root: NodeKeyView, key: KeyHash) ->
    Option<
    Seq<u8>,
> {
    if nodes.contains_key(root) {
        lookup_node(nodes, nodes[root], 0, key)
    } else {
        None
    }
}

/// The bytes of a value that may be absent.
pub open spec fn bytes_view(v: Option<Vec<u8>>) -> Option<Seq<u8>> {
    match v {
        Some(b) => Some(b@),
        None => None,
    }
}

/// Whether `larger` holds every node of `smaller`, unchanged.
pub open spec fn extends(
    larger: Map<NodeKeyView, NodeView>,
    smaller: Map<NodeKeyView, NodeView>,
) -> bool {
    forall|k: NodeKeyView| #[trigger]
        smaller.contains_key(k) ==> larger.contains_key(k) && larger[k] == smaller[k]
}

/// A well-formed subtree stays well formed, and holds the same values,
/// when nodes are added to the store.
pub proof fn lemma_frame(
    smaller: Map<NodeKeyView, NodeView>,
    larger: Map<NodeKeyView, NodeView>,
    node: NodeView,
    path: Seq<u8>,
)
    requires
        extends(larger, smaller),
        node_wf(smaller, node, path),
    ensures
        node_wf(larger, node, path),
        forall|key: KeyHash|
            key.nibbles(path.len() as int) == path ==> #[trigger] lookup_node(
                larger,
                node,
                path.len() as int,
                key,
            ) == lookup_node(smaller, node, path.len() as int, key),
    decreases 64 - path.len(),
{
    match node {
        NodeView::Internal(n) => {
            assert forall|i: int| 0 <= i < 16 implies ((#[trigger] n.children@[i]) matches Some(
                c,
            ) ==> child_agrees(larger, c, path, i) && node_wf(
                larger,
                larger[child_key(c, path, i)],
                path.push(i as u8),
            )) by {
                if let Some(c) = n.children@[i] {
                    let k = child_key(c, path, i);
                    assert(smaller.contains_key(k));
                    lemma_frame(smaller, larger, smaller[k], path.push(i as u8));
                }
            }
            assert forall|key: KeyHash| key.nibbles(path.len() as int) == path
                implies #[trigger] lookup_node(
                larger,
                node,
                path.len() as int,
                key,
            ) == lookup_node(smaller, node, path.len() as int, key) by {
                let d = path.len() as int;
                let i = key.nibble(d) as int;
                assert(i < 16) by {
                    let b = key.0[d / 2];
                    assert(b >> 4u8 < 16 && b & 0x0fu8 < 16) by (bit_vector);
                }
                if let Some(c) = n.children@[i] {
                    let k = child_key(c, path, i);
                    assert(smaller.contains_key(k));
                    lemma_frame(smaller, larger, smaller[k], path.push(i as u8));
                    assert(key.nibbles(d + 1) =~= path.push(i as u8));
                    assert(key.nibbles(d) == path);
                    assert(path.push(i as u8).len() == d + 1);
                    assert(larger.contains_key(k) && larger[k] == smaller[k]);
                    assert(lookup_node(larger, smaller[k], d + 1, key) == lookup_node(
                        smaller,
                        smaller[k],
                        d + 1,
                        key,
                    ));
                }
            }
        },
        _ => {},
    }
}

/// Whether the way to `key` goes through `path`.
pub open spec fn on_path(key: KeyHash, path: Seq<u8>) -> bool {
    key.nibbles(path.len() as int) == path
}

/// The way to a key goes through the child in slot `n` of the node at `path`
/// where it goes through `path` and the next nibble of the key is `n`.
pub proof fn lemma_on_path_push(key: KeyHash, path: Seq<u8>, n: u8)
    requires
        path.len() < 64,
    ensures
        on_path(key, path.push(n)) <==> on_path(key, path) && key.nibble(path.len() as int) == n,
{
    let d = path.len() as int;
    assert(key.nibbles(d + 1) =~= key.nibbles(d).push(key.nibble(d)));
    if on_path(key, path.push(n)) {
        assert(key.nibbles(d + 1)[d] == n);
        assert(key.nibbles(d) =~= path.push(n).drop_last());
        assert(path.push(n).drop_last() =~= path);
    }
}

/// For a key on the way through `path`, an inner node at `path` holds what
/// the child in the slot of the key's next nibble holds.
pub proof fn lemma_lookup_child(
    nodes: Map<NodeKeyView, NodeView>,
    n: InternalNode,
    path: Seq<u8>,
    key: KeyHash,
)
    requires
        node_wf(nodes, NodeView::Internal(n), path),
        on_path(key, path),
    ensures
        key.nibble(path.len() as int) < 16,
        lookup_node(nodes, NodeView::Internal(n), path.len() as int, key) == (
        match n.children@[key.nibble(path.len() as int) as int] {
            Some(c) => lookup_node(
                nodes,
                nodes[child_key(c, path, key.nibble(path.len() as int) as int)],
                (path.len() + 1) as int,
                key,
            ),
            None => None,
        }),
{
    lemma_nibble_bound(key, path.len() as int);
}

/// A well-formed subtree that is not empty holds a value for some key on
/// the way through its place.
pub proof fn lemma_some_key(nodes: Map<NodeKeyView, NodeView>, node: NodeView, path: Seq<u8>) ->
    (key:
    KeyHash)
    requires
        node_wf(nodes, node, path),
        !(node is Null),
    ensures
        on_path(key, path),
        lookup_node(nodes, node, path.len() as int, key) is Some,
    decreases 64 - path.len(),
{
    match node {
        NodeView::Leaf(l) => l.key_hash,
        NodeView::Internal(n) => {
            lemma_first_slot_in(n.children@, 0, 16);
            let i = first_slot_in(n.children@, 0, 16);
            let c = n.children@[i].unwrap();
            let key = lemma_some_key(nodes, nodes[child_key(c, path, i)], path.push(i as u8));
            lemma_on_path_push(key, path, i as u8);
            lemma_lookup_child(nodes, n, path, key);
            assert(path.push(i as u8).len() == path.len() + 1);
            key
        },
        NodeView::Null => arbitrary(),
    }
}

/// A well-formed inner node holds values for two keys at least.
pub proof fn lemma_two_keys(
    nodes: Map<NodeKeyView, NodeView>,
    n: InternalNode,
    path: Seq<u8>,
) -> (keys: (KeyHash, KeyHash))
    requires
        node_wf(nodes, NodeView::Internal(n), path),
    ensures
        keys.0 != keys.1,
        on_path(keys.0, path),
        on_path(keys.1, path),
        lookup_node(nodes, NodeView::Internal(n), path.len() as int, keys.0) is Some,
        lookup_node(nodes, NodeView::Internal(n), path.len() as int, keys.1) is Some,
    decreases 64 - path.len(),
{
    let d = path.len() as int;
    lemma_first_slot_in(n.children@, 0, 16);
    let i = first_slot_in(n.children@, 0, 16);
    let c = n.children@[i].unwrap();
    let below = nodes[child_key(c, path, i)];
    assert(path.push(i as u8).len() == d + 1);
    if count_in(n.children@, 0, 16) == 1 {
        // The one child is an inner node.
        assert(!c.is_leaf);
        let m = below->Internal_0;
        let keys = lemma_two_keys(nodes, m, path.push(i as u8));
        lemma_on_path_push(keys.0, path, i as u8);
        lemma_on_path_push(keys.1, path, i as u8);
        lemma_lookup_child(nodes, n, path, keys.0);
        lemma_lookup_child(nodes, n, path, keys.1);
        keys
    } else {
        lemma_count_split(n.children@, 0, i + 1, 15 - i);
        lemma_count_split(n.children@, 0, i, 1);
        lemma_first_slot_in(n.children@, 0, i);
        lemma_first_slot_in(n.children@, i + 1, 15 - i);
        assert(count_in(n.children@, 0, i) == 0) by {
            if count_in(n.children@, 0, i) > 0 {
                let f = first_slot_in(n.children@, 0, i);
                assert(n.children@[f] is Some);
            }
        }
        assert(count_in(n.children@, i, 1) == 1) by {
            assert(count_in(n.children@, i + 1, 0) == 0);
        }
        let j = first_slot_in(n.children@, i + 1, 15 - i);
        let c2 = n.children@[j].unwrap();
        let k1 = lemma_some_key(nodes, below, path.push(i as u8));
        let k2 = lemma_some_key(nodes, nodes[child_key(c2, path, j)], path.push(j as u8));
        assert(path.push(j as u8).len() == d + 1);
        lemma_on_path_push(k1, path, i as u8);
        lemma_on_path_push(k2, path, j as u8);
        lemma_lookup_child(nodes, n, path, k1);
        lemma_lookup_child(nodes, n, path, k2);
        (k1, k2)
    }
}

/// Whether two slots agree in what enters the hash of a node: both are
/// empty, or both hold a child with the same hash and of the same kind.
pub open spec fn slots_agree(a: Option<Child>, b: Option<Child>) -> bool {
    match (a, b) {
        (Some(x), Some(y)) => x.hash@ == y.hash@ && x.is_leaf == y.is_leaf,
        (None, None) => true,
        _ => false,
    }
}

/// Whether two nodes, where both are inner nodes, agree slot by slot.
pub open spec fn children_agree(a: NodeView, b: NodeView) -> bool {
    match (a, b) {
        (NodeView::Internal(x), NodeView::Internal(y)) => forall|i: int|
            0 <= i < 16 ==> slots_agree(#[trigger] x.children@[i], y.children@[i]),
        _ => true,
    }
}

/// The hash of a range of slots depends on the hashes and kinds of the
/// children only, not on their versions.
pub proof fn lemma_range_hash_agrees(
    a: Seq<Option<Child>>,
    b: Seq<Option<Child>>,
    start: int,
    width: int,
)
    requires
        is_range_width(width),
        forall|i: int| start <= i < start + width ==> slots_agree(#[trigger] a[i], b[i]),
    ensures
        range_hash(a, start, width) == range_hash(b, start, width),
    decreases width,
{
    lemma_counts_agree(a, b, start, width);
    lemma_first_slot_in(a, start, width);
    if width > 1 {
        let f = first_slot_in(a, start, width);
        if count_in(a, start, width) > 0 {
            assert(slots_agree(a[f], b[f]));
        }
        lemma_range_hash_agrees(a, b, start, width / 2);
        lemma_range_hash_agrees(a, b, start + width / 2, width / 2);
    } else {
        assert(slots_agree(a[start], b[start]));
    }
}

/// The descent towards a slot depends on the hashes and kinds of the
/// children only: in two ranges of slots that agree slot by slot it ends at
/// the same slot and has the same hashes beside it.
pub proof fn lemma_range_descent_agrees(
    a: Seq<Option<Child>>,
    b: Seq<Option<Child>>,
    start: int,
    width: int,
    n: int,
)
    requires
        is_range_width(width),
        forall|i: int| start <= i < start + width ==> slots_agree(#[trigger] a[i], b[i]),
    ensures
        range_target(a, start, width, n) == range_target(b, start, width, n),
        range_siblings(a, start, width, n) == range_siblings(b, start, width, n),
    decreases width,
{
    lemma_counts_agree(a, b, start, width);
    lemma_first_slot_in(a, start, width);
    if width > 1 {
        let f = first_slot_in(a, start, width);
        if count_in(a, start, width) > 0 {
            assert(slots_agree(a[f], b[f]));
        }
        lemma_range_hash_agrees(a, b, start, width / 2);
        lemma_range_hash_agrees(a, b, start + width / 2, width / 2);
        lemma_range_descent_agrees(a, b, start, width / 2, n);
        lemma_range_descent_agrees(a, b, start + width / 2, width / 2, n);
    } else {
        assert(slots_agree(a[start], b[start]));
    }
}

/// Two ranges of slots that agree slot by slot hold the same number of
/// children, the first of them in the same slot.
proof fn lemma_counts_agree(a: Seq<Option<Child>>, b: Seq<Option<Child>>, start: int, width: int)
    requires
        0 <= width,
        forall|i: int| start <= i < start + width ==> slots_agree(#[trigger] a[i], b[i]),
    ensures
        count_in(a, start, width) == count_in(b, start, width),
        first_slot_in(a, start, width) == first_slot_in(b, start, width),
    decreases width,
{
    if width > 0 {
        assert(slots_agree(a[start], b[start]));
        lemma_counts_agree(a, b, start + 1, width - 1);
    }
}

/// Two well-formed subtrees at one place that hold the same values have
/// the same hash, and are of the same kind.
pub proof fn lemma_same_content_same_hash(
    n1: Map<NodeKeyView, NodeView>,
    a: NodeView,
    n2: Map<NodeKeyView, NodeView>,
    b: NodeView,
    path: Seq<u8>,
)
    requires
        a is Null || node_wf(n1, a, path),
        b is Null || node_wf(n2, b, path),
        forall|k: KeyHash| #[trigger]
            on_path(k, path) ==> lookup_node(n1, a, path.len() as int, k) == lookup_node(
                n2,
                b,
                path.len() as int,
                k,
            ),
    ensures
        a.spec_hash() == b.spec_hash(),
        a is Leaf <==> b is Leaf,
        a is Null <==> b is Null,
        a is Leaf ==> a == b,
        children_agree(a, b),
    decreases 64 - path.len(),
{
    let d = path.len() as int;
    match (a, b) {
        (NodeView::Null, NodeView::Null) => {},
        (NodeView::Null, _) => {
            let k = lemma_some_key(n2, b, path);
            assert(on_path(k, path));
        },
        (_, NodeView::Null) => {
            let k = lemma_some_key(n1, a, path);
            assert(on_path(k, path));
        },
        (NodeView::Leaf(x), NodeView::Leaf(y)) => {
            assert(on_path(x.key_hash, path));
            assert(lookup_node(n1, a, d, x.key_hash) == Some(x.value));
            assert(x.key_hash == y.key_hash);
            assert(x.value == y.value);
            assert(x.value_hash@ == y.value_hash@);
            assert(x.value_hash =~= y.value_hash);
        },
        (NodeView::Leaf(x), NodeView::Internal(m)) => {
            let keys = lemma_two_keys(n2, m, path);
            assert(on_path(keys.0, path) && on_path(keys.1, path));
        },
        (NodeView::Internal(m), NodeView::Leaf(y)) => {
            let keys = lemma_two_keys(n1, m, path);
            assert(on_path(keys.0, path) && on_path(keys.1, path));
        },
        (NodeView::Internal(x), NodeView::Internal(y)) => {
            assert forall|i: int| 0 <= i < 16 implies slots_agree(
                #[trigger] x.children@[i],
                y.children@[i],
            ) by {
                assert(path.push(i as u8).len() == d + 1);
                match (x.children@[i], y.children@[i]) {
                    (Some(c1), Some(c2)) => {
                        let m1 = n1[child_key(c1, path, i)];
                        let m2 = n2[child_key(c2, path, i)];
                        assert forall|k: KeyHash| #[trigger]
                            on_path(k, path.push(i as u8)) implies lookup_node(n1, m1, d + 1, k)
                            == lookup_node(n2, m2, d + 1, k) by {
                            lemma_on_path_push(k, path, i as u8);
                            assert(on_path(k, path));
                            lemma_lookup_child(n1, x, path, k);
                            lemma_lookup_child(n2, y, path, k);
                        }
                        lemma_same_content_same_hash(n1, m1, n2, m2, path.push(i as u8));
                    },
                    (Some(c1), None) => {
                        let m1 = n1[child_key(c1, path, i)];
                        let k = lemma_some_key(n1, m1, path.push(i as u8));
                        lemma_on_path_push(k, path, i as u8);
                        assert(on_path(k, path));
                        lemma_lookup_child(n1, x, path, k);
                        lemma_lookup_child(n2, y, path, k);
                    },
                    (None, Some(c2)) => {
                        let m2 = n2[child_key(c2, path, i)];
                        let k = lemma_some_key(n2, m2, path.push(i as u8));
                        lemma_on_path_push(k, path, i as u8);
                        assert(on_path(k, path));
                        lemma_lookup_child(n1, x, path, k);
                        lemma_lookup_child(n2, y, path, k);
                    },
                    (None, None) => {},
                }
            }
            lemma_range_hash_agrees(x.children@, y.children@, 0, 16);
        },
    }
}

/// The hash of the root of a well-formed tree depends on the values that
/// the tree holds only: two trees that hold the same value for every key
/// have the same root hash, whatever versions wrote their nodes.
pub proof fn lemma_root_determined(
    n1: Map<NodeKeyView, NodeView>,
    r1: NodeKeyView,
    n2: Map<NodeKeyView, NodeView>,
    r2: NodeKeyView,
)
    requires
        tree_wf(n1, r1),
        tree_wf(n2, r2),
        forall|k: KeyHash| #[trigger] lookup(n1, r1, k) == lookup(n2, r2, k),
    ensures
        n1[r1].spec_hash() == n2[r2].spec_hash(),
{
    let empty = Seq::<u8>::empty();
    assert(r1.path =~= empty);
    assert(r2.path =~= empty);
    assert forall|k: KeyHash| #[trigger] on_path(k, empty) implies lookup_node(n1, n1[r1], 0, k)
        == lookup_node(n2, n2[r2], 0, k) by {
        assert(lookup(n1, r1, k) == lookup(n2, r2, k));
    }
    lemma_same_content_same_hash(n1, n1[r1], n2, n2[r2], empty);
}

/// Whether `p` is `path` or goes on from it.
pub open spec fn under(p: Seq<u8>, path: Seq<u8>) -> bool {
    p.len() >= path.len() && p.subrange(0, path.len() as int) == path
}

/// Whether the node with the key `k` is part of the subtree under `node`,
/// which stands at `path`: a child of `node`, or part of the subtree under
/// the child on the way to the place of `k`.
pub open spec fn reaches(
    nodes: Map<NodeKeyView, NodeView>,
    node: NodeView,
    path: Seq<u8>,
    k: NodeKeyView,
) -> bool
    decreases 64 - path.len(),
{
    match node {
        NodeView::Internal(n) => path.len() < 64 && k.path.len() > path.len() && under(k.path, path)
            && k.path[path.len() as int] < 16 && (
        n.children@[k.path[path.len() as int] as int] matches Some(c) && (k == child_key(
            c,
            path,
            k.path[path.len() as int] as int,
        ) || (nodes.contains_key(child_key(c, path, k.path[path.len() as int] as int)) && reaches(
            nodes,
            nodes[child_key(c, path, k.path[path.len() as int] as int)],
            path.push(k.path[path.len() as int]),
            k,
        )))),
        _ => false,
    }
}

/// Whether the node with the key `k` is part of the tree under the root
/// key `root`.
pub open spec fn in_tree(
    nodes: Map<NodeKeyView, NodeView>,
    root: NodeKeyView,
    k: NodeKeyView,
) -> bool {
    nodes.contains_key(root) && (k == root || reaches(nodes, nodes[root], root.path, k))
}

/// The nodes of a well-formed subtree are in the store, below the place of
/// the subtree.
pub proof fn lemma_reaches_below(
    nodes: Map<NodeKeyView, NodeView>,
    node: NodeView,
    path: Seq<u8>,
    k: NodeKeyView,
)
    requires
        node_wf(nodes, node, path),
        reaches(nodes, node, path, k),
    ensures
        nodes.contains_key(k),
        k.path.len() > path.len(),
        under(k.path, path),
    decreases 64 - path.len(),
{
    let n = node->Internal_0;
    let i = k.path[path.len() as int];
    let c = n.children@[i as int]->Some_0;
    let ck = child_key(c, path, i as int);
    if k != ck {
        lemma_reaches_below(nodes, nodes[ck], path.push(i), k);
    }
}

/// A well-formed subtree has the same nodes when nodes are added to the
/// store.
pub proof fn lemma_reaches_frame(
    smaller: Map<NodeKeyView, NodeView>,
    larger: Map<NodeKeyView, NodeView>,
    node: NodeView,
    path: Seq<u8>,
    k: NodeKeyView,
)
    requires
        extends(larger, smaller),
        node_wf(smaller, node, path),
    ensures
        reaches(larger, node, path, k) == reaches(smaller, node, path, k),
    decreases 64 - path.len(),
{
    if let NodeView::Internal(n) = node {
        if k.path.len() > path.len() && under(k.path, path) && k.path[path.len() as int] < 16 {
            let i = k.path[path.len() as int];
            if let Some(c) = n.children@[i as int] {
                let ck = child_key(c, path, i as int);
                assert(smaller.contains_key(ck));
                assert(larger.contains_key(ck) && larger[ck] == smaller[ck]);
                lemma_reaches_frame(smaller, larger, smaller[ck], path.push(i), k);
            }
        }
    }
}

/// A well-formed subtree needs its own nodes only: in a store that holds
/// every node of the subtree unchanged, whatever else it lacks, the subtree
/// is well formed and holds the same values.
pub proof fn lemma_subtree_kept(
    nodes: Map<NodeKeyView, NodeView>,
    kept: Map<NodeKeyView, NodeView>,
    node: NodeView,
    path: Seq<u8>,
)
    requires
        node_wf(nodes, node, path),
        forall|k: NodeKeyView| #[trigger]
            reaches(nodes, node, path, k) ==> kept.contains_key(k) && nodes.contains_key(k)
                && kept[k] == nodes[k],
    ensures
        node_wf(kept, node, path),
        forall|key: KeyHash|
            on_path(key, path) ==> #[trigger] lookup_node(kept, node, path.len() as int, key)
                == lookup_node(nodes, node, path.len() as int, key),
    decreases 64 - path.len(),
{
    let d = path.len() as int;
    if let NodeView::Internal(n) = node {
        assert forall|i: int| 0 <= i < 16 && (#[trigger] n.children@[i]) is Some implies {
            let ck = child_key(n.children@[i].unwrap(), path, i);
            &&& child_agrees(kept, n.children@[i].unwrap(), path, i)
            &&& kept[ck] == nodes[ck]
            &&& node_wf(kept, kept[ck], path.push(i as u8))
            &&& forall|key: KeyHash|
                on_path(key, path.push(i as u8)) ==> #[trigger] lookup_node(
                    kept,
                    nodes[ck],
                    d + 1,
                    key,
                ) == lookup_node(nodes, nodes[ck], d + 1, key)
        } by {
            let c = n.children@[i].unwrap();
            let ck = child_key(c, path, i);
            let below = path.push(i as u8);
            assert(below.subrange(0, d) =~= path);
            assert(below[d] == i as u8);
            assert(reaches(nodes, node, path, ck));
            assert forall|k: NodeKeyView| #[trigger]
                reaches(nodes, nodes[ck], below, k) implies kept.contains_key(k)
                && nodes.contains_key(k) && kept[k] == nodes[k] by {
                lemma_reaches_below(nodes, nodes[ck], below, k);
                assert(k.path.subrange(0, d) =~= k.path.subrange(0, d + 1).subrange(0, d));
                assert(k.path[d] == k.path.subrange(0, d + 1)[d]);
                assert(reaches(nodes, node, path, k));
            }
            lemma_subtree_kept(nodes, kept, nodes[ck], below);
            assert(below.len() == d + 1);
        }
        assert forall|key: KeyHash| on_path(key, path) implies #[trigger] lookup_node(
            kept,
            node,
            d,
            key,
        ) == lookup_node(nodes, node, d, key) by {
            lemma_nibble_bound(key, d);
            let i = key.nibble(d) as int;
            if let Some(c) = n.children@[i] {
                let ck = child_key(c, path, i);
                lemma_on_path_push(key, path, i as u8);
                assert(on_path(key, path.push(i as u8)));
                assert(kept[ck] == nodes[ck]);
                assert(lookup_node(kept, nodes[ck], d + 1, key) == lookup_node(
                    nodes,
                    nodes[ck],
                    d + 1,
                    key,
                ));
            }
        }
    }
}

} // verus!
