//! What holds of the tree over its versions.
use crate::hash::{
    is_digest, lemma_nibble_bound, sha256, KeyHash, INTERNAL_DOMAIN_SEPARATOR,
    LEAF_DOMAIN_SEPARATOR,
};
use crate::model::{
    bytes_view, child_key, compact, in_tree, lemma_lookup_child, lemma_on_path_push,
    lemma_range_descent_agrees, lemma_reaches_below, lemma_root_determined,
    lemma_same_content_same_hash, lemma_some_key, lemma_subtree_kept, lemma_two_keys, lookup,
    lookup_node, node_wf, on_path, reaches, slots_agree, tree_wf,
};
use crate::node_type::{
    count_in, first_slot_in, is_range_width, leaves_in, lemma_count_split, lemma_first_slot_in,
    lemma_range_full, lemma_range_siblings_len, lemma_range_target, range_hash, range_siblings,
    range_target, root_key, single_leaf_in, Child,
    InternalNode, NodeKeyView, NodeView,
};
use crate::proofs::{
    lemma_bits_of_path, lemma_key_bit_of_nibble, lemma_turn_is_bit, level_of, nibble_bit, RootHash,
};
use crate::storage::UpdateBatch;
use crate::tree::{node_counted, put_ok, put_premises, spec_proof, tree_proof};
use crate::tree_cache::{stale_mark, start_root};
use crate::types::{Version, PRE_GENESIS_VERSION};
use crate::update::{applied, counted, is_last, lemma_ops_key, lemma_ops_last, ops_map, Op};
use vstd::prelude::*;

verus! {

/// The store once the nodes of `batch` are written to it.
pub open spec fn written_store(
    store: Map<NodeKeyView, NodeView>,
    batch: UpdateBatch,
) -> Map<NodeKeyView, NodeView> {
    store.union_prefer_right(batch.node_batch@)
}

/// Whether every node of the store was written before `version`, or before
/// genesis.
pub open spec fn store_before(store: Map<NodeKeyView, NodeView>, version: Version) -> bool {
    forall|k: NodeKeyView| #[trigger]
        store.contains_key(k) ==> k.version < version || k.version == PRE_GENESIS_VERSION
}

/// Reading after writing: once a batch is written as a version, the tree of
/// that version holds for every key the value of the last entry that the
/// batch has for the key, nothing where that entry removes the key, and
/// where the batch has no entry for the key what the tree before held.
pub proof fn lemma_put_then_get(
    store: Map<NodeKeyView, NodeView>,
    ops: Seq<Op>,
    version: Version,
    root_hash: RootHash,
    batch: UpdateBatch,
    key: KeyHash,
)
    requires
        put_ok(store, ops, version, root_hash, batch),
    ensures
        forall|j: int|
            is_last(ops, j) && ops[j].0 == key ==> lookup(
                written_store(store, batch),
                root_key(version),
                key,
            ) == bytes_view(ops[j].1),
        (forall|j: int| 0 <= j < ops.len() ==> ops[j].0 != key) ==> lookup(
            written_store(store, batch),
            root_key(version),
            key,
        ) == lookup(store, start_root(store, version), key),
{
    let after = written_store(store, batch);
    assert(lookup(after, root_key(version), key) == applied(
        ops,
        lookup(store, start_root(store, version), key),
        key,
    ));
    assert forall|j: int| is_last(ops, j) && ops[j].0 == key implies lookup(
        after,
        root_key(version),
        key,
    ) == bytes_view(ops[j].1) by {
        lemma_ops_last(ops, j);
    }
    if ops_map(ops).contains_key(key) {
        lemma_ops_key(ops, key);
    }
}

/// The same batch on the same content gives the same root: where two
/// stores hold the same value for every key before a batch, the batch
/// gives the same root hash on both, and they hold the same value for
/// every key afterwards, with the same proof.
pub proof fn lemma_same_batch_same_root(
    store1: Map<NodeKeyView, NodeView>,
    store2: Map<NodeKeyView, NodeView>,
    ops: Seq<Op>,
    version: Version,
    root_hash1: RootHash,
    batch1: UpdateBatch,
    root_hash2: RootHash,
    batch2: UpdateBatch,
)
    requires
        put_ok(store1, ops, version, root_hash1, batch1),
        put_ok(store2, ops, version, root_hash2, batch2),
        forall|k: KeyHash| #[trigger]
            lookup(store1, start_root(store1, version), k) == lookup(
                store2,
                start_root(store2, version),
                k,
            ),
    ensures
        root_hash1 == root_hash2,
        forall|k: KeyHash| #[trigger]
            lookup(written_store(store1, batch1), root_key(version), k) == lookup(
                written_store(store2, batch2),
                root_key(version),
                k,
            ),
        forall|k: KeyHash| #[trigger]
            tree_proof(written_store(store1, batch1), version, k) == tree_proof(
                written_store(store2, batch2),
                version,
                k,
            ),
{
    let after1 = written_store(store1, batch1);
    let after2 = written_store(store2, batch2);
    assert forall|k: KeyHash| #[trigger]
        lookup(after1, root_key(version), k) == lookup(after2, root_key(version), k) by {
        assert(lookup(store1, start_root(store1, version), k) == lookup(
            store2,
            start_root(store2, version),
            k,
        ));
    }
    lemma_root_determined(after1, root_key(version), after2, root_key(version));
    assert(root_hash1.0 =~= root_hash2.0);
    assert forall|k: KeyHash| #[trigger]
        tree_proof(after1, version, k) == tree_proof(after2, version, k) by {
        lemma_proof_determined(after1, version, after2, version, k);
    }
}

/// Two well-formed subtrees at one place that hold the same values give
/// the same proof for a key: the same leaf and the same hashes beside the
/// way.
pub proof fn lemma_same_content_same_proof(
    n1: Map<NodeKeyView, NodeView>,
    a: NodeView,
    n2: Map<NodeKeyView, NodeView>,
    b: NodeView,
    path: Seq<u8>,
    key: KeyHash,
)
    requires
        a is Null || node_wf(n1, a, path),
        b is Null || node_wf(n2, b, path),
        on_path(key, path),
        forall|k: KeyHash| #[trigger]
            on_path(k, path) ==> lookup_node(n1, a, path.len() as int, k) == lookup_node(
                n2,
                b,
                path.len() as int,
                k,
            ),
    ensures
        spec_proof(n1, a, path.len() as int, key) == spec_proof(n2, b, path.len() as int, key),
    decreases 64 - path.len(),
{
    let d = path.len() as int;
    lemma_same_content_same_hash(n1, a, n2, b, path);
    match (a, b) {
        (NodeView::Internal(x), NodeView::Internal(y)) => {
            lemma_nibble_bound(key, d);
            let nib = key.nibble(d) as int;
            lemma_range_descent_agrees(x.children@, y.children@, 0, 16, nib);
            lemma_range_target(x.children@, 0, 16, nib);
            if let Some(m) = range_target(x.children@, 0, 16, nib) {
                let below = path.push(m as u8);
                let m1 = n1[child_key(x.children@[m].unwrap(), path, m)];
                let m2 = n2[child_key(y.children@[m].unwrap(), path, m)];
                assert(slots_agree(x.children@[m], y.children@[m]));
                assert(below.len() == d + 1);
                assert forall|k: KeyHash| #[trigger] on_path(k, below) implies lookup_node(
                    n1,
                    m1,
                    d + 1,
                    k,
                ) == lookup_node(n2, m2, d + 1, k) by {
                    lemma_on_path_push(k, path, m as u8);
                    lemma_lookup_child(n1, x, path, k);
                    lemma_lookup_child(n2, y, path, k);
                }
                if m == nib {
                    lemma_on_path_push(key, path, m as u8);
                    assert(key.nibbles(d) == path);
                    lemma_same_content_same_proof(n1, m1, n2, m2, below, key);
                } else {
                    lemma_same_content_same_hash(n1, m1, n2, m2, below);
                }
            }
        },
        _ => {},
    }
}

/// The proof for a key depends on the values that the tree holds only: two
/// well-formed trees that hold the same value for every key give the same
/// leaf and the same hashes for each key, whatever versions wrote their
/// nodes. Two runs of the same batches so give the same proofs.
pub proof fn lemma_proof_determined(
    n1: Map<NodeKeyView, NodeView>,
    v1: Version,
    n2: Map<NodeKeyView, NodeView>,
    v2: Version,
    key: KeyHash,
)
    requires
        tree_wf(n1, root_key(v1)),
        tree_wf(n2, root_key(v2)),
        forall|k: KeyHash| #[trigger] lookup(n1, root_key(v1), k) == lookup(n2, root_key(v2), k),
    ensures
        tree_proof(n1, v1, key) == tree_proof(n2, v2, key),
{
    let empty = Seq::<u8>::empty();
    assert(root_key(v1).path =~= empty);
    assert(root_key(v2).path =~= empty);
    assert(key.nibbles(0) =~= empty);
    assert forall|k: KeyHash| #[trigger] on_path(k, empty) implies lookup_node(
        n1,
        n1[root_key(v1)],
        0,
        k,
    ) == lookup_node(n2, n2[root_key(v2)], 0, k) by {
        assert(lookup(n1, root_key(v1), k) == lookup(n2, root_key(v2), k));
    }
    lemma_same_content_same_proof(n1, n1[root_key(v1)], n2, n2[root_key(v2)], empty, key);
}

/// A store without nodes can take the batch of version 0; it holds no tree.
pub proof fn lemma_empty_store_ready()
    ensures
        put_premises(Map::<NodeKeyView, NodeView>::empty(), true, 0),
        store_before(Map::<NodeKeyView, NodeView>::empty(), 0),
        tree_nodes(Map::<NodeKeyView, NodeView>::empty(), root_key(0)) == Set::<
            NodeKeyView,
        >::empty(),
        tree_ordered(Map::<NodeKeyView, NodeView>::empty(), root_key(0)),
{
    assert(tree_nodes(Map::<NodeKeyView, NodeView>::empty(), root_key(0)) =~= Set::<
        NodeKeyView,
    >::empty());
}

/// After the batch of one version the store can take the batch of the
/// next: it holds a well-formed tree under the root of the version, and
/// nothing of a later version.
pub proof fn lemma_next_batch_ready(
    store: Map<NodeKeyView, NodeView>,
    ops: Seq<Op>,
    version: Version,
    root_hash: RootHash,
    batch: UpdateBatch,
)
    requires
        version + 1 < PRE_GENESIS_VERSION,
        store_before(store, version),
        put_ok(store, ops, version, root_hash, batch),
    ensures
        put_premises(written_store(store, batch), true, (version + 1) as Version),
        store_before(written_store(store, batch), (version + 1) as Version),
{
    let after = written_store(store, batch);
    assert forall|k: NodeKeyView| #[trigger] after.contains_key(k) implies k.version < version + 1
        || k.version == PRE_GENESIS_VERSION by {
        if !batch.node_batch@.contains_key(k) {
            assert(store.contains_key(k));
        }
    }
}

/// Every node of a well-formed subtree is the root of a well-formed
/// subtree at its own place.
pub proof fn lemma_part_is_well_formed(
    nodes: Map<NodeKeyView, NodeView>,
    node: NodeView,
    path: Seq<u8>,
    k: NodeKeyView,
)
    requires
        node_wf(nodes, node, path),
        reaches(nodes, node, path, k),
    ensures
        nodes.contains_key(k),
        !(nodes[k] is Null),
        node_wf(nodes, nodes[k], k.path),
    decreases 64 - path.len(),
{
    let n = node->Internal_0;
    let i = k.path[path.len() as int];
    let c = n.children@[i as int]->Some_0;
    let ck = child_key(c, path, i as int);
    if k != ck {
        lemma_part_is_well_formed(nodes, nodes[ck], path.push(i), k);
    }
}

/// No tree that a batch made holds an inner node whose only child is a
/// leaf: every inner node of a well-formed tree has a child, and where it
/// has just one, that child is an inner node.
pub proof fn lemma_no_inner_node_with_single_leaf(
    nodes: Map<NodeKeyView, NodeView>,
    root: NodeKeyView,
    k: NodeKeyView,
    n: InternalNode,
)
    requires
        tree_wf(nodes, root),
        in_tree(nodes, root, k),
        nodes[k] == NodeView::Internal(n),
    ensures
        compact(n.children@),
        n.spec_num_children() >= 1,
        !single_leaf_in(n.children@, 0, 16),
{
    if k != root {
        lemma_part_is_well_formed(nodes, nodes[root], root.path, k);
    }
}

/// A leaf stands no deeper than it must: the inner node above a leaf holds
/// a value for a key other than that of the leaf.
pub proof fn lemma_leaf_depth_is_least(
    nodes: Map<NodeKeyView, NodeView>,
    n: InternalNode,
    path: Seq<u8>,
    leaf_key: KeyHash,
) -> (other: KeyHash)
    requires
        node_wf(nodes, NodeView::Internal(n), path),
    ensures
        other != leaf_key,
        on_path(other, path),
        lookup_node(nodes, NodeView::Internal(n), path.len() as int, other) is Some,
{
    let keys = lemma_two_keys(nodes, n, path);
    if keys.0 != leaf_key {
        keys.0
    } else {
        keys.1
    }
}

/// Whether the account of the node `k` over a step is right: it is in
/// `after` or in `marked`, and not in both, just where it was in `before`
/// or is in `written`, and not in both.
pub open spec fn set_counted(
    before: Set<NodeKeyView>,
    after: Set<NodeKeyView>,
    written: Set<NodeKeyView>,
    marked: Set<NodeKeyView>,
    k: NodeKeyView,
) -> bool {
    counted(before.contains(k), after.contains(k), written.contains(k), marked.contains(k)) && !(
    before.contains(k) && written.contains(k))
}

/// The account of the nodes over a step, in numbers: where the account of
/// every node is right, the nodes afterwards and the nodes marked are as
/// many as the nodes before and the nodes written.
pub proof fn lemma_batch_counts(
    before: Set<NodeKeyView>,
    after: Set<NodeKeyView>,
    written: Set<NodeKeyView>,
    marked: Set<NodeKeyView>,
)
    requires
        before.finite(),
        written.finite(),
        forall|k: NodeKeyView| #[trigger] set_counted(before, after, written, marked, k),
    ensures
        after.finite(),
        marked.finite(),
        after.len() + marked.len() == before.len() + written.len(),
{
    broadcast use vstd::set::group_set_axioms;

    assert(after + marked =~= before + written) by {
        assert forall|k: NodeKeyView| (after + marked).contains(k) == (before + written).contains(
            k,
        ) by {
            assert(set_counted(before, after, written, marked, k));
        }
    }
    vstd::set_lib::lemma_set_union_finite_implies_sets_finite(after, marked);
    assert(before.disjoint(written)) by {
        assert forall|k: NodeKeyView| !(before.contains(k) && written.contains(k)) by {
            assert(set_counted(before, after, written, marked, k));
        }
    }
    assert(after.disjoint(marked)) by {
        assert forall|k: NodeKeyView| !(after.contains(k) && marked.contains(k)) by {
            assert(set_counted(before, after, written, marked, k));
        }
    }
    vstd::set_lib::lemma_set_disjoint_lens(before, written);
    vstd::set_lib::lemma_set_disjoint_lens(after, marked);
}

/// The account of the nodes over a batch of the tree, in numbers: the
/// nodes of the new tree and the nodes that the batch marks stale are as
/// many as the nodes of the tree before and the nodes that the batch
/// writes. Over all the batches from the empty store, the tree of a version
/// so has as many nodes as were ever written, less those ever marked stale.
pub proof fn lemma_stale_accounting(
    store: Map<NodeKeyView, NodeView>,
    ops: Seq<Op>,
    version: Version,
    root_hash: RootHash,
    batch: UpdateBatch,
)
    requires
        put_ok(store, ops, version, root_hash, batch),
        tree_nodes(store, start_root(store, version)).finite(),
    ensures
        tree_nodes(written_store(store, batch), root_key(version)).finite(),
        marked_nodes(batch, version).finite(),
        tree_nodes(written_store(store, batch), root_key(version)).len() + marked_nodes(
            batch,
            version,
        ).len() == tree_nodes(store, start_root(store, version)).len()
            + batch.node_batch@.dom().len(),
{
    let before = tree_nodes(store, start_root(store, version));
    let after = tree_nodes(written_store(store, batch), root_key(version));
    let written = batch.node_batch@.dom();
    let marked = marked_nodes(batch, version);
    batch.node_batch.lemma_finite();
    assert forall|k: NodeKeyView| #[trigger] set_counted(before, after, written, marked, k) by {
        assert(node_counted(store, version, batch, k));
    }
    lemma_batch_counts(before, after, written, marked);
}

/// Whether `kept` holds every node of the tree under the root key `root`
/// in `nodes`, unchanged.
pub open spec fn keeps_tree(
    kept: Map<NodeKeyView, NodeView>,
    nodes: Map<NodeKeyView, NodeView>,
    root: NodeKeyView,
) -> bool {
    forall|k: NodeKeyView| #[trigger]
        in_tree(nodes, root, k) ==> kept.contains_key(k) && nodes.contains_key(k) && kept[k]
            == nodes[k]
}

/// A tree needs its own nodes only: in a store that holds every node of
/// the tree of a version unchanged, whatever else it lacks, that tree is
/// well formed, holds the same value for every key and gives the same
/// proof.
pub proof fn lemma_tree_kept(
    nodes: Map<NodeKeyView, NodeView>,
    kept: Map<NodeKeyView, NodeView>,
    version: Version,
    key: KeyHash,
)
    requires
        tree_wf(nodes, root_key(version)),
        keeps_tree(kept, nodes, root_key(version)),
    ensures
        tree_wf(kept, root_key(version)),
        kept[root_key(version)] == nodes[root_key(version)],
        lookup(kept, root_key(version), key) == lookup(nodes, root_key(version), key),
        tree_proof(kept, version, key) == tree_proof(nodes, version, key),
{
    let root = root_key(version);
    assert(in_tree(nodes, root, root));
    assert forall|k: NodeKeyView| #[trigger]
        reaches(nodes, nodes[root], root.path, k) implies kept.contains_key(k)
        && nodes.contains_key(k) && kept[k] == nodes[k] by {
        assert(in_tree(nodes, root, k));
    }
    lemma_subtree_kept(nodes, kept, nodes[root], root.path);
    assert forall|k: KeyHash| #[trigger] lookup(kept, root, k) == lookup(nodes, root, k) by {
        assert(k.nibbles(0) =~= root.path);
        assert(on_path(k, root.path));
    }
    lemma_proof_determined(kept, version, nodes, version, key);
}

/// The store after the first `n` of `batches` are written, one after the
/// other, to a store without nodes.
pub open spec fn store_after(batches: Seq<UpdateBatch>, n: nat) -> Map<NodeKeyView, NodeView>
    decreases n,
{
    if n == 0 {
        Map::empty()
    } else {
        written_store(store_after(batches, (n - 1) as nat), batches[n - 1])
    }
}

/// Whether batch `i` of `batches` is what applying `ops[i]` as version `i`
/// gives on the store after the batches before it.
pub open spec fn step_ok(
    ops: Seq<Seq<Op>>,
    roots: Seq<RootHash>,
    batches: Seq<UpdateBatch>,
    i: int,
) -> bool {
    put_ok(store_after(batches, i as nat), ops[i], i as Version, roots[i], batches[i])
}

/// Whether `batches` are what applying `ops` gives, batch by batch from
/// version 0 on, on a store that has no nodes at first.
pub open spec fn committed(
    ops: Seq<Seq<Op>>,
    roots: Seq<RootHash>,
    batches: Seq<UpdateBatch>,
) -> bool {
    &&& ops.len() == batches.len()
    &&& roots.len() == batches.len()
    &&& batches.len() <= u64::MAX
    &&& forall|i: int| 0 <= i < batches.len() ==> #[trigger] step_ok(ops, roots, batches, i)
}

/// Whether batch `w` of `batches` marks the node `k` stale.
pub open spec fn marks(batches: Seq<UpdateBatch>, w: int, k: NodeKeyView) -> bool {
    batches[w].stale_node_index_batch@.contains(stale_mark(w as Version, k))
}

/// Whether one of `batches` marks the node `k` stale.
pub open spec fn marked_in(batches: Seq<UpdateBatch>, k: NodeKeyView) -> bool {
    exists|w: int| 0 <= w < batches.len() && #[trigger] marks(batches, w, k)
}

/// The store after `batches`, once every node that one of them marks stale
/// is removed from it.
pub open spec fn pruned_store(batches: Seq<UpdateBatch>) -> Map<NodeKeyView, NodeView> {
    store_after(batches, batches.len()).remove_keys(
        Set::new(|k: NodeKeyView| marked_in(batches, k)),
    )
}

/// The version of the last of `batches`.
pub open spec fn last_version(batches: Seq<UpdateBatch>) -> Version {
    (batches.len() - 1) as Version
}

/// The nodes in the store after `n` batches are of the versions before `n`.
proof fn lemma_store_versions(
    ops: Seq<Seq<Op>>,
    roots: Seq<RootHash>,
    batches: Seq<UpdateBatch>,
    n: nat,
    k: NodeKeyView,
)
    requires
        committed(ops, roots, batches),
        n <= batches.len(),
        store_after(batches, n).contains_key(k),
    ensures
        k.version < n,
    decreases n,
{
    if n > 0 {
        assert(step_ok(ops, roots, batches, n - 1));
        if !batches[n - 1].node_batch@.contains_key(k) {
            lemma_store_versions(ops, roots, batches, (n - 1) as nat, k);
        }
    }
}

/// A node of the tree from which batch `n` starts is in the store after
/// the batches before it.
proof fn lemma_part_is_stored(
    ops: Seq<Seq<Op>>,
    roots: Seq<RootHash>,
    batches: Seq<UpdateBatch>,
    n: nat,
    k: NodeKeyView,
)
    requires
        committed(ops, roots, batches),
        n < batches.len(),
        in_tree(
            store_after(batches, n),
            start_root(store_after(batches, n), n as Version),
            k,
        ),
    ensures
        n > 0,
        store_after(batches, n).contains_key(k),
{
    let store = store_after(batches, n);
    let root = start_root(store, n as Version);
    if n > 0 {
        assert(step_ok(ops, roots, batches, n - 1));
        if k != root {
            lemma_reaches_below(store, store[root], root.path, k);
        }
    }
}

/// A node that a batch marks stale is no part of the tree of that batch, nor
/// of the tree of any later one.
pub proof fn lemma_marked_is_out(
    ops: Seq<Seq<Op>>,
    roots: Seq<RootHash>,
    batches: Seq<UpdateBatch>,
    n: nat,
    w: int,
    k: NodeKeyView,
)
    requires
        committed(ops, roots, batches),
        0 <= w < n <= batches.len(),
        marks(batches, w, k),
    ensures
        !in_tree(store_after(batches, n), root_key((n - 1) as Version), k),
    decreases n,
{
    let store = store_after(batches, (n - 1) as nat);
    assert(step_ok(ops, roots, batches, n - 1));
    assert(node_counted(store, (n - 1) as Version, batches[n - 1], k));
    if n > w + 1 {
        lemma_marked_is_out(ops, roots, batches, (n - 1) as nat, w, k);
        if batches[n - 1].node_batch@.contains_key(k) {
            assert(k.version == n - 1);
            let before = store_after(batches, w as nat);
            assert(step_ok(ops, roots, batches, w));
            assert(node_counted(before, w as Version, batches[w], k));
            if !batches[w].node_batch@.contains_key(k) {
                lemma_part_is_stored(ops, roots, batches, w as nat, k);
                lemma_store_versions(ops, roots, batches, w as nat, k);
            }
        }
    }
}

/// A node in the store after `n` batches is part of the tree of the last
/// of them, or one of them marks it stale.
proof fn lemma_stored_is_part_or_marked(
    ops: Seq<Seq<Op>>,
    roots: Seq<RootHash>,
    batches: Seq<UpdateBatch>,
    n: nat,
    k: NodeKeyView,
)
    requires
        committed(ops, roots, batches),
        0 < n <= batches.len(),
        store_after(batches, n).contains_key(k),
    ensures
        in_tree(store_after(batches, n), root_key((n - 1) as Version), k) || exists|w: int|
            0 <= w < n && #[trigger] marks(batches, w, k),
    decreases n,
{
    let store = store_after(batches, (n - 1) as nat);
    assert(step_ok(ops, roots, batches, n - 1));
    assert(node_counted(store, (n - 1) as Version, batches[n - 1], k));
    if !batches[n - 1].node_batch@.contains_key(k) {
        assert(store.contains_key(k));
        lemma_stored_is_part_or_marked(ops, roots, batches, (n - 1) as nat, k);
    }
    if !in_tree(store_after(batches, n), root_key((n - 1) as Version), k) {
        if !marks(batches, n - 1, k) {
            let w = choose|w: int| 0 <= w < n - 1 && #[trigger] marks(batches, w, k);
            assert(marks(batches, w, k));
        }
    }
}

/// The number of nodes that the first `n` of `batches` write.
pub open spec fn written_total(batches: Seq<UpdateBatch>, n: nat) -> nat
    decreases n,
{
    if n == 0 {
        0
    } else {
        written_total(batches, (n - 1) as nat) + batches[n - 1].node_batch@.dom().len()
    }
}

/// The number of nodes that the first `n` of `batches` mark stale.
pub open spec fn marked_total(batches: Seq<UpdateBatch>, n: nat) -> nat
    decreases n,
{
    if n == 0 {
        0
    } else {
        marked_total(batches, (n - 1) as nat) + marked_nodes(
            batches[n - 1],
            (n - 1) as Version,
        ).len()
    }
}

/// The account of the nodes over the versions: after the batches of the
/// versions up to one, written one after the other from a store without
/// nodes, the tree of that version has as many nodes as all the batches
/// wrote, less those that they marked stale.
pub proof fn lemma_accounting_over_versions(
    ops: Seq<Seq<Op>>,
    roots: Seq<RootHash>,
    batches: Seq<UpdateBatch>,
    n: nat,
)
    requires
        committed(ops, roots, batches),
        0 < n <= batches.len(),
    ensures
        tree_nodes(store_after(batches, n), root_key((n - 1) as Version)).finite(),
        tree_nodes(store_after(batches, n), root_key((n - 1) as Version)).len() + marked_total(
            batches,
            n,
        ) == written_total(batches, n),
    decreases n,
{
    let store = store_after(batches, (n - 1) as nat);
    assert(step_ok(ops, roots, batches, n - 1));
    if n == 1 {
        lemma_empty_store_ready();
        assert(store =~= Map::<NodeKeyView, NodeView>::empty());
        assert(marked_total(batches, 0) == 0 && written_total(batches, 0) == 0);
    } else {
        lemma_accounting_over_versions(ops, roots, batches, (n - 1) as nat);
    }
    lemma_stale_accounting(store, ops[n - 1], (n - 1) as Version, roots[n - 1], batches[n - 1]);
}

/// Pruning keeps the tree: once every node that a batch marked stale is
/// removed from the store, the nodes left are those of the tree of the last
/// version, no more and no fewer. That tree is well formed in what is left,
/// has the same root, holds the same value for every key and gives the
/// same proof.
pub proof fn lemma_pruning_keeps_tree(
    ops: Seq<Seq<Op>>,
    roots: Seq<RootHash>,
    batches: Seq<UpdateBatch>,
    key: KeyHash,
)
    requires
        committed(ops, roots, batches),
        batches.len() > 0,
    ensures
        pruned_store(batches).dom() == tree_nodes(
            store_after(batches, batches.len()),
            root_key(last_version(batches)),
        ),
        tree_wf(pruned_store(batches), root_key(last_version(batches))),
        pruned_store(batches)[root_key(last_version(batches))] == store_after(
            batches,
            batches.len(),
        )[root_key(last_version(batches))],
        lookup(pruned_store(batches), root_key(last_version(batches)), key) == lookup(
            store_after(batches, batches.len()),
            root_key(last_version(batches)),
            key,
        ),
        tree_proof(pruned_store(batches), last_version(batches), key) == tree_proof(
            store_after(batches, batches.len()),
            last_version(batches),
            key,
        ),
{
    let n = batches.len();
    let version = last_version(batches);
    let root = root_key(version);
    let store = store_after(batches, n);
    let kept = pruned_store(batches);
    assert(step_ok(ops, roots, batches, n - 1));
    assert forall|k: NodeKeyView| in_tree(store, root, k) == kept.contains_key(k) by {
        if in_tree(store, root, k) {
            if k != root {
                lemma_reaches_below(store, store[root], root.path, k);
            }
            if marked_in(batches, k) {
                let w = choose|w: int| 0 <= w < batches.len() && #[trigger] marks(batches, w, k);
                lemma_marked_is_out(ops, roots, batches, n, w, k);
            }
        } else if kept.contains_key(k) {
            lemma_stored_is_part_or_marked(ops, roots, batches, n, k);
        }
    }
    assert(kept.dom() =~= tree_nodes(store, root));
    lemma_tree_kept(store, kept, version, key);
}

/// The keys of the nodes of the tree under the root key `root`.
pub open spec fn tree_nodes(nodes: Map<NodeKeyView, NodeView>, root: NodeKeyView) ->
    Set<NodeKeyView> {
    Set::new(|k: NodeKeyView| in_tree(nodes, root, k))
}

/// The keys of the nodes that a batch marks stale at `version`.
pub open spec fn marked_nodes(batch: UpdateBatch, version: Version) -> Set<NodeKeyView> {
    Set::new(|k: NodeKeyView| batch.stale_node_index_batch@.contains(stale_mark(version, k)))
}

/// The number of leaves in the subtree under `node`, which stands at
/// `path`.
pub open spec fn leaf_total(nodes: Map<NodeKeyView, NodeView>, node: NodeView, path: Seq<u8>) -> nat
    decreases 64 - path.len(), 17nat,
{
    match node {
        NodeView::Null => 0,
        NodeView::Leaf(_) => 1,
        NodeView::Internal(n) => if path.len() < 64 {
            slots_total(nodes, n, path, 0)
        } else {
            0
        },
    }
}

/// The number of leaves in the subtrees under the slots from `start` of the
/// node `n`, which stands at `path`.
pub open spec fn slots_total(
    nodes: Map<NodeKeyView, NodeView>,
    n: InternalNode,
    path: Seq<u8>,
    start: int,
) -> nat
    decreases 64 - path.len(), 16 - start,
{
    if path.len() < 64 && 0 <= start < 16 {
        (match n.children@[start] {
            Some(c) => leaf_total(nodes, nodes[child_key(c, path, start)], path.push(start as u8)),
            None => 0,
        }) + slots_total(nodes, n, path, start + 1)
    } else {
        0
    }
}

/// What a number comes to as a count of leaves: the number itself, or the
/// greatest number that fits.
pub open spec fn saturated(n: nat) -> usize {
    if n > usize::MAX {
        usize::MAX
    } else {
        n as usize
    }
}

/// What a well-formed node records as the number of leaves under it is the
/// number of leaves in its subtree, up to the greatest number that fits;
/// what the root records is so the number of keys of the tree.
pub proof fn lemma_leaf_count(nodes: Map<NodeKeyView, NodeView>, node: NodeView, path: Seq<u8>)
    requires
        node_wf(nodes, node, path),
    ensures
        node.spec_leaf_count() == saturated(leaf_total(nodes, node, path)),
    decreases 64 - path.len(), 17nat,
{
    if let NodeView::Internal(n) = node {
        lemma_slots_count(nodes, n, path, 0);
    }
}

/// What the slots from `start` of a well-formed node record as their
/// number of leaves is the number of leaves in their subtrees.
proof fn lemma_slots_count(
    nodes: Map<NodeKeyView, NodeView>,
    n: InternalNode,
    path: Seq<u8>,
    start: int,
)
    requires
        node_wf(nodes, NodeView::Internal(n), path),
        0 <= start <= 16,
    ensures
        leaves_in(n.children@, start, 16 - start) == saturated(
            slots_total(nodes, n, path, start),
        ),
    decreases 64 - path.len(), 16 - start,
{
    if start < 16 {
        lemma_slots_count(nodes, n, path, start + 1);
        if let Some(c) = n.children@[start] {
            lemma_leaf_count(nodes, nodes[child_key(c, path, start)], path.push(start as u8));
        }
    }
}

/// Whether a child written at `child` may stand under a node written at
/// `version`: it is no younger than the node, or was written before
/// genesis.
pub open spec fn child_version_ok(child: Version, version: Version) -> bool {
    child <= version || child == PRE_GENESIS_VERSION
}

/// Whether no child of the node under `k` is younger than the node.
pub open spec fn node_ordered(nodes: Map<NodeKeyView, NodeView>, k: NodeKeyView) -> bool {
    nodes[k] matches NodeView::Internal(n) ==> forall|i: int|
        0 <= i < 16 ==> ((#[trigger] n.children@[i]) matches Some(c) ==> child_version_ok(
            c.version,
            k.version,
        ))
}

/// Whether no node of the tree under the root key `root` has a child
/// younger than itself.
pub open spec fn tree_ordered(nodes: Map<NodeKeyView, NodeView>, root: NodeKeyView) -> bool {
    forall|k: NodeKeyView| #[trigger] in_tree(nodes, root, k) ==> node_ordered(nodes, k)
}

/// No node has a child younger than itself: where that holds of the tree
/// before a batch, and the store holds nothing of the version of the batch
/// or a later one, it holds of the tree that the batch makes. Nodes written
/// before genesis are older than all others.
pub proof fn lemma_versions_ordered(
    store: Map<NodeKeyView, NodeView>,
    ops: Seq<Op>,
    version: Version,
    root_hash: RootHash,
    batch: UpdateBatch,
)
    requires
        version < PRE_GENESIS_VERSION,
        store_before(store, version),
        put_ok(store, ops, version, root_hash, batch),
        tree_ordered(store, start_root(store, version)),
    ensures
        tree_ordered(written_store(store, batch), root_key(version)),
{
    let after = written_store(store, batch);
    let root = root_key(version);
    assert forall|k: NodeKeyView| #[trigger] in_tree(after, root, k) implies node_ordered(
        after,
        k,
    ) by {
        assert(node_counted(store, version, batch, k));
        if k != root {
            lemma_part_is_well_formed(after, after[root], root.path, k);
        }
        if let NodeView::Internal(n) = after[k] {
            assert forall|i: int| 0 <= i < 16 implies ((#[trigger] n.children@[i]) matches Some(
                c,
            ) ==> child_version_ok(c.version, k.version)) by {
                if let Some(c) = n.children@[i] {
                    if batch.node_batch@.contains_key(k) {
                        let ck = child_key(c, k.path, i);
                        assert(after.contains_key(ck));
                        if !batch.node_batch@.contains_key(ck) {
                            assert(store.contains_key(ck));
                        }
                    } else {
                        assert(in_tree(store, start_root(store, version), k));
                        assert(store.contains_key(k));
                        assert(after[k] == store[k]);
                        assert(node_ordered(store, k));
                    }
                }
            }
        }
    }
}

/// Inside a node, where the descent towards the slot of a leaf goes through
/// some levels, the last range that it splits holds another child; that
/// child has the bits of the leaf's slot at the levels before.
proof fn lemma_range_other(ch: Seq<Option<Child>>, start: int, width: int, n: int) -> (r: (
    int,
    int,
    int,
))
    requires
        is_range_width(width),
        0 <= start,
        start + width <= 16,
        start % width == 0,
        start <= n < start + width,
        ch[n] is Some,
        ch[n].unwrap().is_leaf,
        range_siblings(ch, start, width, n).len() > 0,
    ensures
        start <= r.0 < start + width,
        r.0 != n,
        ch[r.0] is Some,
        forall|t: int|
            level_of(width) <= t < level_of(width) + range_siblings(ch, start, width, n).len() - 1
                ==> nibble_bit(r.0 as u8, t) == #[trigger] nibble_bit(n as u8, t),
        is_range_width(r.2),
        start <= r.1,
        r.1 + r.2 <= start + width,
        count_in(ch, r.1, r.2) > 0,
        range_siblings(ch, start, width, n)[0] == range_hash(ch, r.1, r.2),
    decreases width,
{
    let half = width / 2;
    lemma_first_slot_in(ch, start, width);
    if width == 16 {
        assert(start % 8 == 0 && (start + 8) % 8 == 0);
    } else if width == 8 {
        assert(start % 4 == 0 && (start + 4) % 4 == 0);
    } else if width == 4 {
        assert(start % 2 == 0 && (start + 2) % 2 == 0);
    }
    assert(start % half == 0 && (start + half) % half == 0);
    let sub_start = if n < start + half {
        start
    } else {
        start + half
    };
    let sub = range_siblings(ch, sub_start, half, n);
    if sub.len() > 0 {
        let found = lemma_range_other(ch, sub_start, half, n);
        lemma_turn_is_bit(n as u8, start as u8, width as u8);
        lemma_turn_is_bit(found.0 as u8, start as u8, width as u8);
        found
    } else {
        // The half of the slot holds the leaf alone: the other child of
        // the range is in the other half.
        lemma_first_slot_in(ch, sub_start, half);
        let first = first_slot_in(ch, start, width);
        if count_in(ch, start, width) == 1 {
            assert(first == n);
        }
        lemma_count_split(ch, start, half, half);
        lemma_first_slot_in(ch, start, half);
        lemma_first_slot_in(ch, start + half, half);
        let other_start = if n < start + half {
            start + half
        } else {
            start
        };
        if half > 1 {
            assert(single_leaf_in(ch, sub_start, half));
        } else {
            assert(count_in(ch, sub_start, half) == 1) by {
                assert(count_in(ch, sub_start + 1, 0) == 0);
            }
        }
        assert(count_in(ch, other_start, half) > 0);
        (first_slot_in(ch, other_start, half), other_start, half)
    }
}

/// The hash of a node that is not empty is a digest of SHA-256.
proof fn lemma_node_hash_is_digest(nodes: Map<NodeKeyView, NodeView>, node: NodeView, path: Seq<u8>)
    requires
        node_wf(nodes, node, path),
        !(node is Null),
    ensures
        is_digest(node.spec_hash()),
{
    match node {
        NodeView::Leaf(l) => {
            assert(node.spec_hash() == sha256(
                LEAF_DOMAIN_SEPARATOR@ + l.key_hash.0@ + l.value_hash@,
            ));
        },
        NodeView::Internal(n) => {
            let ch = n.children@;
            assert(node.spec_hash() == sha256(
                INTERNAL_DOMAIN_SEPARATOR@ + range_hash(ch, 0, 8) + range_hash(ch, 8, 8),
            ));
        },
        NodeView::Null => {},
    }
}

/// The hash of a range of slots that holds a child is a digest of SHA-256.
proof fn lemma_range_hash_is_digest(
    nodes: Map<NodeKeyView, NodeView>,
    n: InternalNode,
    path: Seq<u8>,
    start: int,
    width: int,
)
    requires
        node_wf(nodes, NodeView::Internal(n), path),
        is_range_width(width),
        0 <= start,
        start + width <= 16,
        count_in(n.children@, start, width) > 0,
    ensures
        is_digest(range_hash(n.children@, start, width)),
{
    let ch = n.children@;
    lemma_first_slot_in(ch, start, width);
    if width <= 1 || single_leaf_in(ch, start, width) {
        let f = first_slot_in(ch, start, width);
        let c = ch[f].unwrap();
        assert(range_hash(ch, start, width) == c.hash@);
        lemma_node_hash_is_digest(nodes, nodes[child_key(c, path, f)], path.push(f as u8));
    } else {
        assert(range_hash(ch, start, width) == sha256(
            INTERNAL_DOMAIN_SEPARATOR@ + range_hash(ch, start, width / 2) + range_hash(
                ch,
                start + width / 2,
                width / 2,
            ),
        ));
    }
}

/// A proof is no longer than it must be: where the proof of a key with a
/// value has hashes, the deepest of them stands for a subtree that is not
/// empty. Another key has a value there, whose way is that of the key up
/// to the last bit of the proof; and the hash is that of the subtree, a
/// digest of SHA-256, where an empty subtree has the placeholder.
pub proof fn lemma_proof_is_short(
    nodes: Map<NodeKeyView, NodeView>,
    node: NodeView,
    depth: int,
    key: KeyHash,
) -> (other: KeyHash)
    requires
        0 <= depth <= 64,
        node_wf(nodes, node, key.nibbles(depth)),
        lookup_node(nodes, node, depth, key) is Some,
        spec_proof(nodes, node, depth, key).1.len() > 0,
    ensures
        other != key,
        on_path(other, key.nibbles(depth)),
        lookup_node(nodes, node, depth, other) is Some,
        forall|i: int|
            0 <= i < 4 * depth + spec_proof(nodes, node, depth, key).1.len() - 1 ==> other.bit(i)
                == key.bit(i),
        is_digest(spec_proof(nodes, node, depth, key).1[0]),
    decreases 64 - depth,
{
    let path = key.nibbles(depth);
    assert(path.len() == depth);
    let n = node->Internal_0;
    let nib = key.nibble(depth);
    lemma_nibble_bound(key, depth);
    lemma_lookup_child(nodes, n, path, key);
    let c = n.children@[nib as int].unwrap();
    let below = nodes[child_key(c, path, nib as int)];
    lemma_range_target(n.children@, 0, 16, nib as int);
    assert(key.nibbles(depth + 1) =~= path.push(nib));
    assert(path.push(nib).len() == depth + 1);
    let beside = range_siblings(n.children@, 0, 16, nib as int);
    lemma_range_siblings_len(n.children@, 0, 16, nib as int);
    let deeper = spec_proof(nodes, below, depth + 1, key).1;
    let all = spec_proof(nodes, node, depth, key).1;
    assert(all == deeper + beside);
    if below is Internal {
        lemma_range_full(n.children@, 0, 16, nib as int);
        let m = below->Internal_0;
        if deeper.len() == 0 {
            // The node below would hold a single leaf.
            let next = key.nibble(depth + 1);
            lemma_nibble_bound(key, depth + 1);
            assert(path.push(nib).len() == depth + 1);
            lemma_lookup_child(nodes, m, path.push(nib), key);
            assert(m.children@[next as int] is Some);
            lemma_range_target(m.children@, 0, 16, next as int);
            lemma_first_slot_in(m.children@, 0, 16);
            let beside_below = range_siblings(m.children@, 0, 16, next as int);
            let cn = m.children@[next as int].unwrap();
            let under = nodes[child_key(cn, key.nibbles(depth + 1), next as int)];
            assert(deeper == spec_proof(nodes, under, depth + 2, key).1 + beside_below);
            assert(beside_below.len() == 0);
            assert(n.children@[nib as int] == Some(c));
            assert(node_wf(nodes, below, path.push(nib)));
            assert(compact(m.children@));
            assert(false);
        }
        let other = lemma_proof_is_short(nodes, below, depth + 1, key);
        lemma_on_path_push(other, path, nib);
        lemma_lookup_child(nodes, n, path, other);
        assert forall|i: int| 0 <= i < 4 * depth + all.len() - 1 implies other.bit(i) == key.bit(
            i,
        ) by {}
        other
    } else {
        assert(deeper.len() == 0);
        assert(all =~= beside);
        let found = lemma_range_other(n.children@, 0, 16, nib as int);
        let m = found.0;
        lemma_range_hash_is_digest(nodes, n, path, found.1, found.2);
        let cm = n.children@[m].unwrap();
        assert(path.push(m as u8).len() == depth + 1);
        let other = lemma_some_key(nodes, nodes[child_key(cm, path, m)], path.push(m as u8));
        lemma_on_path_push(other, path, m as u8);
        lemma_lookup_child(nodes, n, path, other);
        assert forall|i: int| 0 <= i < 4 * depth + all.len() - 1 implies other.bit(i) == key.bit(
            i,
        ) by {
            if i < 4 * depth {
                lemma_bits_of_path(other, key, depth, i);
            } else {
                let t = i - 4 * depth;
                lemma_key_bit_of_nibble(other, depth, t);
                lemma_key_bit_of_nibble(key, depth, t);
                assert(nibble_bit(m as u8, t) == nibble_bit(nib, t));
            }
        }
        other
    }
}

} // verus!
