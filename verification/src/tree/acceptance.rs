//! What a verifier of the ICS-23 format asks of the steps of a proof of
//! non-existence, and that the proofs of the tree have it.
use crate::hash::{
    lemma_lt_asymmetric, lemma_nibble_bound, lemma_nibble_order, KeyHash,
    SPARSE_MERKLE_PLACEHOLDER_HASH,
};
use crate::model::{
    child_key, lemma_lookup_child, lemma_on_path_push, lemma_some_key, lookup, lookup_node,
    node_wf, on_path, tree_wf,
};
use crate::node_type::{
    count_in, is_range_width, lemma_first_slot_in, lemma_range_full, lemma_range_target,
    range_hash, range_siblings, range_target, root_key, single_leaf_in, Child, NodeKeyView,
    NodeView,
};
use crate::proofs::{lemma_key_bit_of_nibble, lemma_turn_is_bit, level_of};
use crate::hash::{key_hash_of, lemma_lt_total, lemma_lt_transitive};
use crate::tree::ics23_impl::{
    commitment_ok, membership_accepted, named_key_hash, shows_neighbor, spec_existence_proof,
    spec_inner_op, step_fits, steps_fit, CommitmentProof, CommitmentProofKind, InnerOpView,
    NonExistenceProof,
};
use crate::tree::{extreme_in, nearest, neighbors_ok, on_side, spec_proof, tree_proof};
use crate::types::Version;
use vstd::prelude::*;

verus! {

/// Whether a step says that the node below is a left child.
pub open spec fn is_left_step(op: InnerOpView) -> bool {
    op.prefix.len() == 16 && op.suffix.len() == 32
}

/// Whether a step says that the node below is a right child.
pub open spec fn is_right_step(op: InnerOpView) -> bool {
    op.prefix.len() == 48 && op.suffix.len() == 0
}

/// Whether every step of `path` is on the left edge of the tree: the node
/// below is a left child, or a right child beside an empty subtree.
pub open spec fn leftmost_steps(path: Seq<InnerOpView>) -> bool {
    forall|j: int|
        0 <= j < path.len() ==> is_left_step(#[trigger] path[j]) || (is_right_step(path[j])
            && path[j].prefix.subrange(16, 48) == SPARSE_MERKLE_PLACEHOLDER_HASH@)
}

/// Whether every step of `path` is on the right edge of the tree: the node
/// below is a right child, or a left child beside an empty subtree.
pub open spec fn rightmost_steps(path: Seq<InnerOpView>) -> bool {
    forall|j: int|
        0 <= j < path.len() ==> is_right_step(#[trigger] path[j]) || (is_left_step(path[j])
            && path[j].suffix == SPARSE_MERKLE_PLACEHOLDER_HASH@)
}

/// Whether the way to `key` from bit depth `from` runs along an edge: on
/// the left edge, where `leftmost` is set, the hash beside every turn to the
/// right is that of an empty subtree; on the right edge the hash beside
/// every turn to the left is.
pub open spec fn edge_siblings(
    siblings: Seq<Seq<u8>>,
    key: KeyHash,
    from: int,
    leftmost: bool,
) -> bool {
    forall|j: int|
        0 <= j < siblings.len() && key.bit(from + siblings.len() - 1 - j) == leftmost
            ==> #[trigger] siblings[j] == SPARSE_MERKLE_PLACEHOLDER_HASH@
}

/// A range of slots without children has the hash of an empty subtree.
pub proof fn lemma_empty_range(ch: Seq<Option<Child>>, start: int, width: int)
    requires
        is_range_width(width),
        forall|i: int| start <= i < start + width ==> ch[i] is None,
    ensures
        range_hash(ch, start, width) == SPARSE_MERKLE_PLACEHOLDER_HASH@,
{
    lemma_first_slot_in(ch, start, width);
    if width > 1 && count_in(ch, start, width) > 0 {
        assert(ch[crate::node_type::first_slot_in(ch, start, width)] is Some);
    }
}

/// Inside a node, the way towards the least occupied slot of a range runs
/// along the left edge, and the way towards the greatest along the right
/// edge.
pub proof fn lemma_range_edge(
    ch: Seq<Option<Child>>,
    start: int,
    width: int,
    key: KeyHash,
    d: int,
    leftmost: bool,
)
    requires
        is_range_width(width),
        0 <= start,
        start + width <= 16,
        start % width == 0,
        0 <= d < 64,
        start <= key.nibble(d) < start + width,
        leftmost ==> forall|i: int| start <= i < key.nibble(d) ==> ch[i] is None,
        !leftmost ==> forall|i: int| key.nibble(d) < i < start + width ==> ch[i] is None,
    ensures
        edge_siblings(
            range_siblings(ch, start, width, key.nibble(d) as int),
            key,
            4 * d + level_of(width),
            leftmost,
        ),
    decreases width,
{
    let n = key.nibble(d);
    let half = width / 2;
    let sibs = range_siblings(ch, start, width, n as int);
    if width <= 1 || count_in(ch, start, width) == 0 || single_leaf_in(ch, start, width) {
    } else {
        lemma_key_bit_of_nibble(key, d, level_of(width));
        lemma_turn_is_bit(n, start as u8, width as u8);
        if width == 16 {
            assert(start % 8 == 0 && (start + 8) % 8 == 0);
        } else if width == 8 {
            assert(start % 4 == 0 && (start + 4) % 4 == 0);
        } else if width == 4 {
            assert(start % 2 == 0 && (start + 2) % 2 == 0);
        }
        assert(start % half == 0 && (start + half) % half == 0);
        if n < start + half {
            lemma_range_edge(ch, start, half, key, d, leftmost);
            let sub = range_siblings(ch, start, half, n as int);
            if !leftmost {
                lemma_empty_range(ch, start + half, half);
            }
            assert forall|j: int|
                0 <= j < sibs.len() && key.bit(4 * d + level_of(width) + sibs.len() - 1 - j)
                    == leftmost implies #[trigger] sibs[j] == SPARSE_MERKLE_PLACEHOLDER_HASH@ by {
                if j < sub.len() {
                    assert(sibs[j] == sub[j]);
                }
            }
        } else {
            lemma_range_edge(ch, start + half, half, key, d, leftmost);
            let sub = range_siblings(ch, start + half, half, n as int);
            if leftmost {
                lemma_empty_range(ch, start, half);
            }
            assert forall|j: int|
                0 <= j < sibs.len() && key.bit(4 * d + level_of(width) + sibs.len() - 1 - j)
                    == leftmost implies #[trigger] sibs[j] == SPARSE_MERKLE_PLACEHOLDER_HASH@ by {
                if j < sub.len() {
                    assert(sibs[j] == sub[j]);
                }
            }
        }
    }
}

/// The way to the least key of a well-formed subtree runs along its left
/// edge, and the way to the greatest along its right edge.
pub proof fn lemma_extreme_is_edge(
    nodes: Map<NodeKeyView, NodeView>,
    node: NodeView,
    depth: int,
    key: KeyHash,
    leftmost: bool,
)
    requires
        0 <= depth <= 64,
        node_wf(nodes, node, key.nibbles(depth)),
        extreme_in(nodes, node, key.nibbles(depth), key, !leftmost),
    ensures
        edge_siblings(spec_proof(nodes, node, depth, key).1, key, 4 * depth, leftmost),
    decreases 64 - depth,
{
    let path = key.nibbles(depth);
    assert(path.len() == depth);
    if let NodeView::Internal(n) = node {
        let nib = key.nibble(depth);
        lemma_nibble_bound(key, depth);
        lemma_lookup_child(nodes, n, path, key);
        let c = n.children@[nib as int].unwrap();
        let below = nodes[child_key(c, path, nib as int)];
        lemma_range_target(n.children@, 0, 16, nib as int);
        assert(range_target(n.children@, 0, 16, nib as int) == Some(nib as int));
        assert(key.nibbles(depth + 1) =~= path.push(nib));
        // Beside the slot of the key, towards the edge, no slot is occupied.
        assert forall|i: int|
            0 <= i < 16 && (if leftmost {
                i < nib
            } else {
                nib < i
            }) implies n.children@[i] is None by {
            if let Some(ci) = n.children@[i] {
                assert(path.push(i as u8).len() == depth + 1);
                let other = lemma_some_key(nodes, nodes[child_key(ci, path, i)], path.push(i as u8));
                lemma_on_path_push(other, path, i as u8);
                lemma_lookup_child(nodes, n, path, other);
                assert(other.nibbles(depth) == key.nibbles(depth));
                if leftmost {
                    lemma_nibble_order(other, key, depth);
                    lemma_lt_asymmetric(other, key);
                } else {
                    lemma_nibble_order(key, other, depth);
                    lemma_lt_asymmetric(key, other);
                }
            }
        }
        lemma_range_edge(n.children@, 0, 16, key, depth, leftmost);
        let beside = range_siblings(n.children@, 0, 16, nib as int);
        // The key is the extreme one of the subtree below as well.
        assert(extreme_in(nodes, below, path.push(nib), key, !leftmost)) by {
            assert(path.push(nib).len() == depth + 1);
            assert forall|other: KeyHash| #[trigger]
                lookup_node(nodes, below, depth + 1, other) is Some && on_path(
                    other,
                    path.push(nib),
                ) implies other == key || on_side(other, key, !leftmost) by {
                lemma_on_path_push(other, path, nib);
                lemma_lookup_child(nodes, n, path, other);
            }
        }
        lemma_extreme_is_edge(nodes, below, depth + 1, key, leftmost);
        let deeper = spec_proof(nodes, below, depth + 1, key).1;
        let all = spec_proof(nodes, node, depth, key).1;
        assert(all == deeper + beside);
        if below is Internal {
            lemma_range_full(n.children@, 0, 16, nib as int);
        } else {
            assert(deeper.len() == 0);
        }
        assert forall|j: int|
            0 <= j < all.len() && key.bit(4 * depth + all.len() - 1 - j)
                == leftmost implies #[trigger] all[j] == SPARSE_MERKLE_PLACEHOLDER_HASH@ by {
            if j < deeper.len() {
                assert(all[j] == deeper[j]);
                assert(4 * depth + all.len() - 1 - j == 4 * (depth + 1) + deeper.len() - 1 - j);
            } else {
                assert(all[j] == beside[j - deeper.len()]);
            }
        }
    }
}

/// The steps of the proof of existence made from the hashes beside a way
/// along the left edge are steps on the left edge, and likewise on the
/// right.
pub proof fn lemma_edge_steps(
    key: Seq<u8>,
    value: Seq<u8>,
    siblings: Seq<Seq<u8>>,
    key_hash: KeyHash,
    leftmost: bool,
)
    requires
        edge_siblings(siblings, key_hash, 0, leftmost),
        steps_fit(spec_existence_proof(key, value, siblings, key_hash).path),
    ensures
        leftmost ==> leftmost_steps(spec_existence_proof(key, value, siblings, key_hash).path),
        !leftmost ==> rightmost_steps(spec_existence_proof(key, value, siblings, key_hash).path),
{
    let path = spec_existence_proof(key, value, siblings, key_hash).path;
    assert forall|j: int| 0 <= j < path.len() implies (if leftmost {
        is_left_step(#[trigger] path[j]) || (is_right_step(path[j]) && path[j].prefix.subrange(
            16,
            48,
        ) == SPARSE_MERKLE_PLACEHOLDER_HASH@)
    } else {
        is_right_step(path[j]) || (is_left_step(path[j]) && path[j].suffix
            == SPARSE_MERKLE_PLACEHOLDER_HASH@)
    }) by {
        let bit = key_hash.bit(siblings.len() - 1 - j);
        assert(path[j] == spec_inner_op(bit, siblings[j]));
        assert(step_fits(path[j]));
        if bit == leftmost {
            assert(siblings[j] == SPARSE_MERKLE_PLACEHOLDER_HASH@);
        }
        if bit {
            assert(path[j].prefix.subrange(16, 48) =~= siblings[j]);
        }
    }
}

/// Where no key of a well-formed tree sorts below `key`, the least key
/// above it is the least key of the tree; and likewise the greatest.
pub proof fn lemma_nearest_is_extreme(
    nodes: Map<NodeKeyView, NodeView>,
    version: Version,
    key: KeyHash,
    neighbor: KeyHash,
    leftmost: bool,
)
    requires
        tree_wf(nodes, root_key(version)),
        lookup(nodes, root_key(version), key) is None,
        nearest(nodes, version, key, None, leftmost),
        nearest(nodes, version, key, Some(neighbor), !leftmost),
    ensures
        extreme_in(nodes, nodes[root_key(version)], neighbor.nibbles(0), neighbor, !leftmost),
        node_wf(nodes, nodes[root_key(version)], neighbor.nibbles(0)),
{
    let root = root_key(version);
    assert(neighbor.nibbles(0) =~= Seq::<u8>::empty());
    assert(root.path =~= Seq::<u8>::empty());
    assert forall|other: KeyHash| #[trigger]
        lookup_node(nodes, nodes[root], 0, other) is Some && on_path(
            other,
            neighbor.nibbles(0),
        ) implies other == neighbor || on_side(other, neighbor, !leftmost) by {
        assert(lookup(nodes, root, other) is Some);
        if other != key {
            lemma_lt_total(other, key);
        }
    }
}

/// Whether the steps `left` and `right` are those of two leaves next to
/// each other, the left one first: from the root down the steps are the
/// same as far as `shared` steps; at the next step the left leaf is below
/// the left child and the right leaf below the right child; and from there
/// down the left leaf is on the right edge and the right leaf on the left
/// edge.
pub open spec fn neighbor_steps_at(
    left: Seq<InnerOpView>,
    right: Seq<InnerOpView>,
    shared: int,
) -> bool {
    &&& 0 <= shared < left.len()
    &&& shared < right.len()
    &&& forall|i: int|
        0 <= i < shared ==> #[trigger] left[left.len() - 1 - i] == right[right.len() - 1 - i]
    &&& is_left_step(left[left.len() - 1 - shared])
    &&& is_right_step(right[right.len() - 1 - shared])
    &&& rightmost_steps(left.take(left.len() - 1 - shared))
    &&& leftmost_steps(right.take(right.len() - 1 - shared))
}

/// Whether the steps `left` and `right` are those of two leaves next to
/// each other, the left one first.
pub open spec fn neighbor_steps(left: Seq<InnerOpView>, right: Seq<InnerOpView>) -> bool {
    exists|shared: int| neighbor_steps_at(left, right, shared)
}

/// Whether the hashes beside the ways to two keys are those of two leaves
/// next to each other, `low` before `high`, below bit depth `from`: the
/// ways are the same for `shared` bits; at the next bit the way to `low`
/// turns left and the way to `high` right; and from there down the way to
/// `low` runs along the right edge and the way to `high` along the left.
pub open spec fn pair_siblings(
    left: Seq<Seq<u8>>,
    right: Seq<Seq<u8>>,
    low: KeyHash,
    high: KeyHash,
    from: int,
    shared: int,
) -> bool {
    &&& 0 <= shared < left.len()
    &&& shared < right.len()
    &&& forall|i: int|
        0 <= i < shared ==> #[trigger] left[left.len() - 1 - i] == right[right.len() - 1 - i]
    &&& forall|i: int| 0 <= i < shared ==> #[trigger] low.bit(from + i) == high.bit(from + i)
    &&& !low.bit(from + shared)
    &&& high.bit(from + shared)
    &&& edge_siblings(left.take(left.len() - 1 - shared), low, from + shared + 1, false)
    &&& edge_siblings(right.take(right.len() - 1 - shared), high, from + shared + 1, true)
}

/// Whether no key with a value in the subtree under `node` at `path` sorts
/// between `low` and `high`.
pub open spec fn none_between(
    nodes: Map<NodeKeyView, NodeView>,
    node: NodeView,
    path: Seq<u8>,
    low: KeyHash,
    high: KeyHash,
) -> bool {
    forall|k: KeyHash| #[trigger]
        lookup_node(nodes, node, path.len() as int, k) is Some && on_path(k, path) ==> !(
        low.spec_lt(k) && k.spec_lt(high))
}

/// A range that holds two children is not empty, and holds more than one
/// leaf.
proof fn lemma_two_in_range(ch: Seq<Option<Child>>, start: int, width: int, a: int, b: int)
    requires
        0 <= width,
        start <= a < b < start + width,
        ch[a] is Some,
        ch[b] is Some,
    ensures
        count_in(ch, start, width) >= 2,
        !single_leaf_in(ch, start, width),
{
    lemma_first_slot_in(ch, start, width);
}

/// Inside a node, the hashes beside the ways towards two occupied slots
/// with no occupied slot between them are those of two leaves next to each
/// other.
proof fn lemma_range_pair(
    ch: Seq<Option<Child>>,
    start: int,
    width: int,
    low: KeyHash,
    high: KeyHash,
    d: int,
) -> (shared: int)
    requires
        is_range_width(width),
        0 <= start,
        start + width <= 16,
        start % width == 0,
        0 <= d < 64,
        start <= low.nibble(d) < high.nibble(d) < start + width,
        ch[low.nibble(d) as int] is Some,
        ch[high.nibble(d) as int] is Some,
        forall|i: int| low.nibble(d) < i < high.nibble(d) ==> ch[i] is None,
    ensures
        pair_siblings(
            range_siblings(ch, start, width, low.nibble(d) as int),
            range_siblings(ch, start, width, high.nibble(d) as int),
            low,
            high,
            4 * d + level_of(width),
            shared,
        ),
    decreases width,
{
    let a = low.nibble(d);
    let b = high.nibble(d);
    let half = width / 2;
    let from = 4 * d + level_of(width);
    lemma_two_in_range(ch, start, width, a as int, b as int);
    let left = range_siblings(ch, start, width, a as int);
    let right = range_siblings(ch, start, width, b as int);
    lemma_key_bit_of_nibble(low, d, level_of(width));
    lemma_key_bit_of_nibble(high, d, level_of(width));
    lemma_turn_is_bit(a, start as u8, width as u8);
    lemma_turn_is_bit(b, start as u8, width as u8);
    if width == 16 {
        assert(start % 8 == 0 && (start + 8) % 8 == 0);
    } else if width == 8 {
        assert(start % 4 == 0 && (start + 4) % 4 == 0);
    } else if width == 4 {
        assert(start % 2 == 0 && (start + 2) % 2 == 0);
    }
    assert(start % half == 0 && (start + half) % half == 0);
    if b < start + half || a >= start + half {
        let sub_start = if b < start + half {
            start
        } else {
            start + half
        };
        let below = lemma_range_pair(ch, sub_start, half, low, high, d);
        let sub_left = range_siblings(ch, sub_start, half, a as int);
        let sub_right = range_siblings(ch, sub_start, half, b as int);
        let shared = below + 1;
        assert(left.drop_last() =~= sub_left);
        assert(right.drop_last() =~= sub_right);
        assert(left.last() == right.last());
        assert forall|i: int| 0 <= i < shared implies #[trigger] left[left.len() - 1 - i]
            == right[right.len() - 1 - i] by {
            if i > 0 {
                assert(left[left.len() - 1 - i] == sub_left[sub_left.len() - 1 - (i - 1)]);
                assert(right[right.len() - 1 - i] == sub_right[sub_right.len() - 1 - (i - 1)]);
            }
        }
        assert forall|i: int| 0 <= i < shared implies #[trigger] low.bit(from + i) == high.bit(
            from + i,
        ) by {
            if i > 0 {
                assert(low.bit(from + 1 + (i - 1)) == high.bit(from + 1 + (i - 1)));
            }
        }
        assert(left.take(left.len() - 1 - shared) =~= sub_left.take(sub_left.len() - 1 - below));
        assert(right.take(right.len() - 1 - shared) =~= sub_right.take(
            sub_right.len() - 1 - below,
        ));
        shared
    } else {
        lemma_range_edge(ch, start, half, low, d, false);
        lemma_range_edge(ch, start + half, half, high, d, true);
        assert(left.take(left.len() - 1) =~= range_siblings(ch, start, half, a as int));
        assert(right.take(right.len() - 1) =~= range_siblings(ch, start + half, half, b as int));
        0
    }
}

/// Hashes beside a way along an edge, above hashes beside its way further
/// down along the same edge, are hashes beside a way along that edge.
proof fn lemma_edge_concat(
    lower: Seq<Seq<u8>>,
    upper: Seq<Seq<u8>>,
    key: KeyHash,
    from: int,
    leftmost: bool,
)
    requires
        edge_siblings(lower, key, from + upper.len(), leftmost),
        edge_siblings(upper, key, from, leftmost),
    ensures
        edge_siblings(lower + upper, key, from, leftmost),
{
    let all = lower + upper;
    assert forall|j: int|
        0 <= j < all.len() && key.bit(from + all.len() - 1 - j) == leftmost
            implies #[trigger] all[j]
        == SPARSE_MERKLE_PLACEHOLDER_HASH@ by {
        if j < lower.len() {
            assert(all[j] == lower[j]);
            assert(from + all.len() - 1 - j == from + upper.len() + lower.len() - 1 - j);
        } else {
            assert(all[j] == upper[j - lower.len()]);
        }
    }
}

/// In a well-formed subtree, the hashes beside the ways to two keys with no
/// key between them are those of two leaves next to each other.
pub proof fn lemma_pair_siblings(
    nodes: Map<NodeKeyView, NodeView>,
    node: NodeView,
    depth: int,
    low: KeyHash,
    high: KeyHash,
) -> (shared: int)
    requires
        0 <= depth <= 64,
        low.nibbles(depth) == high.nibbles(depth),
        node_wf(nodes, node, low.nibbles(depth)),
        lookup_node(nodes, node, depth, low) is Some,
        lookup_node(nodes, node, depth, high) is Some,
        low.spec_lt(high),
        none_between(nodes, node, low.nibbles(depth), low, high),
    ensures
        pair_siblings(
            spec_proof(nodes, node, depth, low).1,
            spec_proof(nodes, node, depth, high).1,
            low,
            high,
            4 * depth,
            shared,
        ),
    decreases 64 - depth,
{
    let path = low.nibbles(depth);
    assert(path.len() == depth);
    crate::hash::lemma_lt_irreflexive(low);
    match node {
        NodeView::Internal(n) => {
            let a = low.nibble(depth);
            let b = high.nibble(depth);
            lemma_nibble_bound(low, depth);
            lemma_nibble_bound(high, depth);
            lemma_lookup_child(nodes, n, path, low);
            lemma_lookup_child(nodes, n, path, high);
            let ca = n.children@[a as int].unwrap();
            let cb = n.children@[b as int].unwrap();
            let below_a = nodes[child_key(ca, path, a as int)];
            let below_b = nodes[child_key(cb, path, b as int)];
            lemma_range_target(n.children@, 0, 16, a as int);
            lemma_range_target(n.children@, 0, 16, b as int);
            assert(low.nibbles(depth + 1) =~= path.push(a));
            assert(high.nibbles(depth + 1) =~= path.push(b));
            assert(path.push(a).len() == depth + 1);
            assert(path.push(b).len() == depth + 1);
            let left = spec_proof(nodes, node, depth, low).1;
            let right = spec_proof(nodes, node, depth, high).1;
            let beside_a = range_siblings(n.children@, 0, 16, a as int);
            let beside_b = range_siblings(n.children@, 0, 16, b as int);
            let deeper_a = spec_proof(nodes, below_a, depth + 1, low).1;
            let deeper_b = spec_proof(nodes, below_b, depth + 1, high).1;
            assert(left == deeper_a + beside_a);
            assert(right == deeper_b + beside_b);
            if a == b {
                // Both keys are below one child, which is an inner node.
                assert(below_a is Internal);
                lemma_range_full(n.children@, 0, 16, a as int);
                assert(none_between(nodes, below_a, path.push(a), low, high)) by {
                    assert forall|k: KeyHash| #[trigger]
                        lookup_node(nodes, below_a, depth + 1, k) is Some && on_path(
                            k,
                            path.push(a),
                        ) implies !(low.spec_lt(k) && k.spec_lt(high)) by {
                        lemma_on_path_push(k, path, a);
                        lemma_lookup_child(nodes, n, path, k);
                    }
                }
                let below = lemma_pair_siblings(nodes, below_a, depth + 1, low, high);
                let shared = below + 4;
                assert forall|i: int| 0 <= i < shared implies #[trigger] left[left.len() - 1 - i]
                    == right[right.len() - 1 - i] by {
                    if i < 4 {
                        assert(left[left.len() - 1 - i] == beside_a[3 - i]);
                        assert(right[right.len() - 1 - i] == beside_a[3 - i]);
                    } else {
                        assert(left[left.len() - 1 - i] == deeper_a[deeper_a.len() - 1 - (i - 4)]);
                        assert(right[right.len() - 1 - i] == deeper_b[deeper_b.len() - 1 - (i
                            - 4)]);
                    }
                }
                assert forall|i: int| 0 <= i < shared implies #[trigger] low.bit(4 * depth + i)
                    == high.bit(4 * depth + i) by {
                    if i < 4 {
                        lemma_key_bit_of_nibble(low, depth, i);
                        lemma_key_bit_of_nibble(high, depth, i);
                    } else {
                        assert(low.bit(4 * (depth + 1) + (i - 4)) == high.bit(
                            4 * (depth + 1) + (i - 4),
                        ));
                    }
                }
                assert(left.take(left.len() - 1 - shared) =~= deeper_a.take(
                    deeper_a.len() - 1 - below,
                ));
                assert(right.take(right.len() - 1 - shared) =~= deeper_b.take(
                    deeper_b.len() - 1 - below,
                ));
                shared
            } else {
                // The ways part in this node.
                if b < a {
                    lemma_nibble_order(high, low, depth);
                    lemma_lt_asymmetric(low, high);
                }
                assert forall|i: int| a < i < b implies n.children@[i] is None by {
                    if let Some(ci) = n.children@[i] {
                        assert(path.push(i as u8).len() == depth + 1);
                        let other = lemma_some_key(
                            nodes,
                            nodes[child_key(ci, path, i)],
                            path.push(i as u8),
                        );
                        lemma_on_path_push(other, path, i as u8);
                        lemma_lookup_child(nodes, n, path, other);
                        assert(other.nibbles(depth) == low.nibbles(depth));
                        lemma_nibble_order(low, other, depth);
                        lemma_nibble_order(other, high, depth);
                    }
                }
                let shared = lemma_range_pair(n.children@, 0, 16, low, high, depth);
                // Below its child, the lower key is the greatest, and the
                // higher key the least.
                assert(extreme_in(nodes, below_a, path.push(a), low, true)) by {
                    assert forall|k: KeyHash| #[trigger]
                        lookup_node(nodes, below_a, depth + 1, k) is Some && on_path(
                            k,
                            path.push(a),
                        ) implies k == low || k.spec_lt(low) by {
                        lemma_on_path_push(k, path, a);
                        lemma_lookup_child(nodes, n, path, k);
                        assert(k.nibbles(depth) == high.nibbles(depth));
                        lemma_nibble_order(k, high, depth);
                        if k != low {
                            lemma_lt_total(k, low);
                        }
                    }
                }
                assert(extreme_in(nodes, below_b, path.push(b), high, false)) by {
                    assert forall|k: KeyHash| #[trigger]
                        lookup_node(nodes, below_b, depth + 1, k) is Some && on_path(
                            k,
                            path.push(b),
                        ) implies k == high || high.spec_lt(k) by {
                        lemma_on_path_push(k, path, b);
                        lemma_lookup_child(nodes, n, path, k);
                        assert(k.nibbles(depth) == low.nibbles(depth));
                        lemma_nibble_order(low, k, depth);
                        if k != high {
                            lemma_lt_total(k, high);
                        }
                    }
                }
                lemma_extreme_is_edge(nodes, below_a, depth + 1, low, false);
                lemma_extreme_is_edge(nodes, below_b, depth + 1, high, true);
                if below_a is Internal {
                    lemma_range_full(n.children@, 0, 16, a as int);
                } else {
                    assert(deeper_a.len() == 0);
                }
                if below_b is Internal {
                    lemma_range_full(n.children@, 0, 16, b as int);
                } else {
                    assert(deeper_b.len() == 0);
                }
                let upper_a = beside_a.take(beside_a.len() - 1 - shared);
                let upper_b = beside_b.take(beside_b.len() - 1 - shared);
                lemma_edge_concat(deeper_a, upper_a, low, 4 * depth + shared + 1, false);
                lemma_edge_concat(deeper_b, upper_b, high, 4 * depth + shared + 1, true);
                assert(left.take(left.len() - 1 - shared) =~= deeper_a + upper_a);
                assert(right.take(right.len() - 1 - shared) =~= deeper_b + upper_b);
                assert forall|i: int| 0 <= i < shared implies #[trigger] left[left.len() - 1 - i]
                    == right[right.len() - 1 - i] by {
                    assert(left[left.len() - 1 - i] == beside_a[beside_a.len() - 1 - i]);
                    assert(right[right.len() - 1 - i] == beside_b[beside_b.len() - 1 - i]);
                }
                shared
            }
        },
        _ => 0,
    }
}

/// The first `count` steps of the proof of existence made from hashes that
/// are, so far, beside a way along an edge, are steps on that edge.
proof fn lemma_edge_steps_below(
    key: Seq<u8>,
    value: Seq<u8>,
    siblings: Seq<Seq<u8>>,
    key_hash: KeyHash,
    count: int,
    leftmost: bool,
)
    requires
        0 <= count <= siblings.len(),
        edge_siblings(siblings.take(count), key_hash, siblings.len() - count, leftmost),
        steps_fit(spec_existence_proof(key, value, siblings, key_hash).path),
    ensures
        leftmost ==> leftmost_steps(
            spec_existence_proof(key, value, siblings, key_hash).path.take(count),
        ),
        !leftmost ==> rightmost_steps(
            spec_existence_proof(key, value, siblings, key_hash).path.take(count),
        ),
{
    let path = spec_existence_proof(key, value, siblings, key_hash).path;
    let part = path.take(count);
    assert forall|j: int| 0 <= j < part.len() implies (if leftmost {
        is_left_step(#[trigger] part[j]) || (is_right_step(part[j]) && part[j].prefix.subrange(
            16,
            48,
        ) == SPARSE_MERKLE_PLACEHOLDER_HASH@)
    } else {
        is_right_step(part[j]) || (is_left_step(part[j]) && part[j].suffix
            == SPARSE_MERKLE_PLACEHOLDER_HASH@)
    }) by {
        let bit = key_hash.bit(siblings.len() - 1 - j);
        assert(part[j] == path[j]);
        assert(path[j] == spec_inner_op(bit, siblings[j]));
        assert(step_fits(path[j]));
        assert(siblings.take(count)[j] == siblings[j]);
        assert(siblings.len() - count + siblings.take(count).len() - 1 - j == siblings.len() - 1
            - j);
        if bit {
            assert(path[j].prefix.subrange(16, 48) =~= siblings[j]);
        }
    }
}

/// Whether a proof of non-existence is one that a verifier of the ICS-23
/// format takes as showing that `key` has no value under `root`: each leaf
/// that it names is shown to be under `root`, the left one with a key
/// whose hash sorts before that of `key` and the right one with a key whose
/// hash sorts after it; a single leaf is on the edge of the tree on the far
/// side of `key`; and two leaves are next to each other.
pub open spec fn non_membership_accepted(
    p: NonExistenceProof,
    root: Seq<u8>,
    key: Seq<u8>,
) -> bool {
    &&& p.left matches Some(l) ==> membership_accepted(l@, root, l@.key, l@.value) && key_hash_of(
        l@.key,
    ).spec_lt(key_hash_of(key))
    &&& p.right matches Some(r) ==> membership_accepted(r@, root, r@.key, r@.value)
        && key_hash_of(key).spec_lt(key_hash_of(r@.key))
    &&& match (p.left, p.right) {
        (Some(l), None) => rightmost_steps(l@.path),
        (None, Some(r)) => leftmost_steps(r@.path),
        (Some(l), Some(r)) => neighbor_steps(l@.path, r@.path),
        (None, None) => false,
    }
}

/// Whether the keys and values that a proof of non-existence names are not
/// empty.
pub open spec fn names_filled(p: NonExistenceProof) -> bool {
    &&& p.left matches Some(l) ==> l@.key.len() > 0 && l@.value.len() > 0
    &&& p.right matches Some(r) ==> r@.key.len() > 0 && r@.value.len() > 0
}

/// In a well-formed tree the proof for a key without a value is one that a
/// verifier of the ICS-23 format takes, under the hash of the root, as
/// showing that the key has no value, where the keys and values of the
/// leaves next to it are not empty.
pub proof fn lemma_absence_is_accepted(
    nodes: Map<NodeKeyView, NodeView>,
    preimages: Map<KeyHash, Seq<u8>>,
    key: Seq<u8>,
    version: Version,
    p: CommitmentProof,
)
    requires
        commitment_ok(nodes, preimages, key, version, p),
        tree_wf(nodes, root_key(version)),
        lookup(nodes, root_key(version), key_hash_of(key)) is None,
        p.proof matches Some(CommitmentProofKind::Nonexist(n)) ==> names_filled(n),
    ensures
        p.proof matches Some(CommitmentProofKind::Nonexist(n)) && non_membership_accepted(
            n,
            nodes[root_key(version)].spec_hash(),
            key,
        ),
{
    let n = p.proof->Some_0->Nonexist_0;
    let root = root_key(version);
    let top = nodes[root];
    let q = key_hash_of(key);
    let left = named_key_hash(n.left);
    let right = named_key_hash(n.right);
    assert(neighbors_ok(nodes, version, q, left, right));
    match (n.left, n.right) {
        (Some(l), None) => {
            let low = key_hash_of(l@.key);
            assert(shows_neighbor(nodes, preimages, version, q, l@, true));
            lemma_nearest_is_extreme(nodes, version, q, low, false);
            lemma_extreme_is_edge(nodes, top, 0, low, false);
            lemma_edge_steps(l@.key, l@.value, tree_proof(nodes, version, low).1, low, false);
        },
        (None, Some(r)) => {
            let high = key_hash_of(r@.key);
            assert(shows_neighbor(nodes, preimages, version, q, r@, false));
            lemma_nearest_is_extreme(nodes, version, q, high, true);
            lemma_extreme_is_edge(nodes, top, 0, high, true);
            lemma_edge_steps(r@.key, r@.value, tree_proof(nodes, version, high).1, high, true);
        },
        (Some(l), Some(r)) => {
            let low = key_hash_of(l@.key);
            let high = key_hash_of(r@.key);
            assert(shows_neighbor(nodes, preimages, version, q, l@, true));
            assert(shows_neighbor(nodes, preimages, version, q, r@, false));
            lemma_lt_transitive(low, q, high);
            assert(low.nibbles(0) =~= Seq::<u8>::empty());
            assert(high.nibbles(0) =~= Seq::<u8>::empty());
            assert(root.path =~= Seq::<u8>::empty());
            assert(none_between(nodes, top, low.nibbles(0), low, high)) by {
                assert forall|k: KeyHash| #[trigger]
                    lookup_node(nodes, top, 0, k) is Some && on_path(
                        k,
                        low.nibbles(0),
                    ) implies !(low.spec_lt(k) && k.spec_lt(high)) by {
                    assert(lookup(nodes, root, k) is Some);
                    if low.spec_lt(k) && k.spec_lt(high) {
                        lemma_lt_total(k, q);
                        if k.spec_lt(q) {
                            lemma_lt_asymmetric(low, k);
                        } else {
                            lemma_lt_asymmetric(k, high);
                        }
                    }
                }
            }
            let shared = lemma_pair_siblings(nodes, top, 0, low, high);
            let sl = tree_proof(nodes, version, low).1;
            let sr = tree_proof(nodes, version, high).1;
            let pl = l@.path;
            let pr = r@.path;
            assert(pl.len() == sl.len() && pr.len() == sr.len());
            lemma_edge_steps_below(l@.key, l@.value, sl, low, sl.len() - 1 - shared, false);
            lemma_edge_steps_below(r@.key, r@.value, sr, high, sr.len() - 1 - shared, true);
            assert forall|i: int| 0 <= i < shared implies #[trigger] pl[pl.len() - 1 - i]
                == pr[pr.len() - 1 - i] by {
                assert(sl[sl.len() - 1 - i] == sr[sr.len() - 1 - i]);
                assert(low.bit(0 + i) == high.bit(0 + i));
            }
            assert(step_fits(pl[pl.len() - 1 - shared]));
            assert(step_fits(pr[pr.len() - 1 - shared]));
            assert(neighbor_steps_at(pl, pr, shared));
        },
        (None, None) => {},
    }
}

} // verus!
