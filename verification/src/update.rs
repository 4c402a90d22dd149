//! Writing a batch of values into the tree, as a new version.
use crate::hash::{lemma_nibble_bound, lemma_same_nibbles, sha256, KeyHash};
use crate::model::{
    bytes_view, child_agrees, child_key, compact, extends, lemma_frame, lemma_on_path_push,
    lemma_reaches_frame, lookup_node, node_wf, on_path, reaches, under,
};
use crate::node_type::{
    lemma_first_slot_in, Child, InternalNode, LeafNode, Node, NodeKey, NodeKeyView, NodeView,
};
use crate::storage::{JmtError, StaleNodeIndexView, TreeReader};
use crate::tree_cache::{stale_mark, TreeCache};
use crate::types::nibble::nibble_path::NibblePath;
use crate::types::Version;
use vstd::prelude::*;

verus! {

/// One entry of a batch: a key hash, with the value to put under it, or
/// with nothing where the key is to be removed.
pub type Op = (KeyHash, Option<Vec<u8>>);

/// What a batch asks for, key by key; of two entries with one key the later
/// counts.
pub open spec fn ops_map(ops: Seq<Op>) -> Map<KeyHash, Option<Seq<u8>>>
    decreases ops.len(),
{
    if ops.len() == 0 {
        Map::empty()
    } else {
        ops_map(ops.drop_last()).insert(ops.last().0, bytes_view(ops.last().1))
    }
}

/// Whether entry `j` is the last entry of its key.
pub open spec fn is_last(ops: Seq<Op>, j: int) -> bool {
    0 <= j < ops.len() && forall|q: int| j < q < ops.len() ==> (#[trigger] ops[q]).0 != ops[j].0
}

/// The last entry of a key says what the batch asks for that key.
pub proof fn lemma_ops_last(ops: Seq<Op>, j: int)
    requires
        is_last(ops, j),
    ensures
        ops_map(ops).contains_key(ops[j].0),
        ops_map(ops)[ops[j].0] == bytes_view(ops[j].1),
    decreases ops.len(),
{
    if j < ops.len() - 1 {
        assert(ops[ops.len() - 1].0 != ops[j].0);
        assert(is_last(ops.drop_last(), j)) by {
            assert forall|q: int| j < q < ops.drop_last().len() implies (
            #[trigger] ops.drop_last()[q]).0 != ops.drop_last()[j].0 by {
                assert(ops[q].0 != ops[j].0);
            }
        }
        lemma_ops_last(ops.drop_last(), j);
    }
}

/// Every key for which the batch asks something has a last entry.
pub proof fn lemma_ops_key(ops: Seq<Op>, k: KeyHash)
    requires
        ops_map(ops).contains_key(k),
    ensures
        exists|j: int| is_last(ops, j) && ops[j].0 == k,
    decreases ops.len(),
{
    if ops.len() > 0 {
        if ops.last().0 == k {
            assert(is_last(ops, ops.len() - 1));
        } else {
            lemma_ops_key(ops.drop_last(), k);
            let j = choose|j: int| is_last(ops.drop_last(), j) && ops.drop_last()[j].0 == k;
            assert(is_last(ops, j)) by {
                assert forall|q: int| j < q < ops.len() implies (#[trigger] ops[q]).0
                    != ops[j].0 by {
                    if q < ops.len() - 1 {
                        assert(ops.drop_last()[q].0 != ops.drop_last()[j].0);
                    }
                }
            }
        }
    }
}

/// The value of `key` once the batch is applied, where it had `base`
/// before.
pub open spec fn applied(ops: Seq<Op>, base: Option<Seq<u8>>, key: KeyHash) -> Option<Seq<u8>> {
    if ops_map(ops).contains_key(key) {
        ops_map(ops)[key]
    } else {
        base
    }
}

/// Whether `idxs` lists the index `j`.
pub open spec fn lists(idxs: Seq<usize>, j: int) -> bool {
    exists|a: int| 0 <= a < idxs.len() && (#[trigger] idxs[a]) as int == j
}

/// Whether `idxs` lists, in rising order, the last entries of all the keys
/// whose way goes through `path`.
pub open spec fn group_ok(ops: Seq<Op>, idxs: Seq<usize>, path: Seq<u8>) -> bool {
    &&& forall|a: int|
        0 <= a < idxs.len() ==> is_last(ops, (#[trigger] idxs[a]) as int) && on_path(
            ops[idxs[a] as int].0,
            path,
        )
    &&& forall|a: int, b: int| 0 <= a < b < idxs.len() ==>
        (#[trigger] idxs[a]) < (#[trigger] idxs[b])
    &&& forall|j: int| #[trigger] is_last(ops, j) && on_path(ops[j].0, path) ==> lists(idxs, j)
}

/// A key on the way through `path` for which the batch asks something has
/// its last entry in the group of `path`.
pub proof fn lemma_group_key(ops: Seq<Op>, idxs: Seq<usize>, path: Seq<u8>, k: KeyHash)
    requires
        group_ok(ops, idxs, path),
        on_path(k, path),
        ops_map(ops).contains_key(k),
    ensures
        exists|a: int|
            0 <= a < idxs.len() && ops[(#[trigger] idxs[a]) as int].0 == k && ops_map(ops)[k]
                == bytes_view(ops[idxs[a] as int].1),
{
    lemma_ops_key(ops, k);
    let j = choose|j: int| is_last(ops, j) && ops[j].0 == k;
    lemma_ops_last(ops, j);
    assert(lists(idxs, j));
    let a = choose|a: int| 0 <= a < idxs.len() && (#[trigger] idxs[a]) as int == j;
    assert(ops[idxs[a] as int].0 == k);
}

/// Two entries of a group have different keys.
pub proof fn lemma_group_distinct(ops: Seq<Op>, idxs: Seq<usize>, path: Seq<u8>, a: int, b: int)
    requires
        group_ok(ops, idxs, path),
        0 <= a < idxs.len(),
        0 <= b < idxs.len(),
        a != b,
    ensures
        ops[idxs[a] as int].0 != ops[idxs[b] as int].0,
{
    if a < b {
        assert(idxs[a] < idxs[b]);
        assert(is_last(ops, idxs[a] as int));
    } else {
        assert(idxs[b] < idxs[a]);
        assert(is_last(ops, idxs[b] as int));
    }
}

/// Whether every index of `idxs` is an index into a list of `n` entries.
pub open spec fn in_bounds(idxs: Seq<usize>, n: int) -> bool {
    forall|a: int| 0 <= a < idxs.len() ==> (#[trigger] idxs[a]) < n
}

/// The indices of the entries that count: of each key, the last entry.
pub(crate) fn winners(ops: &Vec<Op>) -> (idxs: Vec<usize>)
    ensures
        group_ok(ops@, idxs@, Seq::empty()),
{
    let mut idxs: Vec<usize> = Vec::new();
    let n = ops.len();
    let mut j: usize = 0;
    while j < n
        invariant
            j <= n,
            n == ops@.len(),
            forall|a: int| 0 <= a < idxs@.len() ==> is_last(ops@, (#[trigger] idxs@[a]) as int)
                && idxs@[a] < j,
            forall|a: int, b: int|
                0 <= a < b < idxs@.len() ==> (#[trigger] idxs@[a]) < (#[trigger] idxs@[b]),
            forall|i: int| 0 <= i < j && #[trigger] is_last(ops@, i) ==> lists(idxs@, i),
        decreases n - j,
    {
        let mut last = true;
        let mut q: usize = j + 1;
        while q < n
            invariant
                j < q <= n,
                n == ops@.len(),
                last ==> forall|x: int| j < x < q ==> (#[trigger] ops@[x]).0 != ops@[j as int].0,
                !last ==> exists|x: int| j < x < n && (#[trigger] ops@[x]).0 == ops@[j as int].0,
            decreases n - q,
        {
            if ops[q].0.same(&ops[j].0) {
                last = false;
                q = n;
            } else {
                q += 1;
            }
        }
        let ghost before = idxs@;
        if last {
            idxs.push(j);
            assert(is_last(ops@, j as int));
            assert(idxs@[idxs@.len() - 1] == j);
            assert forall|i: int| 0 <= i <= j && #[trigger] is_last(ops@, i) implies lists(
                idxs@,
                i,
            ) by {
                if i < j {
                    let a = choose|a: int| 0 <= a < before.len() &&
                        (#[trigger] before[a]) as int == i;
                    assert(idxs@[a] as int == i);
                }
            }
        } else {
            assert(!is_last(ops@, j as int));
            assert forall|i: int| 0 <= i <= j && #[trigger] is_last(ops@, i) implies lists(
                idxs@,
                i,
            ) by {}
        }
        j += 1;
    }
    proof {
        assert forall|a: int| 0 <= a < idxs@.len() implies on_path(
            ops@[(#[trigger] idxs@[a]) as int].0,
            Seq::empty(),
        ) by {
            assert(ops@[idxs@[a] as int].0.nibbles(0) =~= Seq::<u8>::empty());
        }
    }
    idxs
}

/// Those of the entries `idxs` whose key has `nibble` behind `path`.
fn select(
    ops: &Vec<Op>,
    idxs: &Vec<usize>,
    depth: usize,
    nibble: u8,
    Ghost(path): Ghost<Seq<u8>>,
) -> (sub: Vec<usize>)
    requires
        depth < 64,
        depth == path.len(),
        group_ok(ops@, idxs@, path),
    ensures
        group_ok(ops@, sub@, path.push(nibble)),
{
    let mut sub: Vec<usize> = Vec::new();
    let mut a: usize = 0;
    while a < idxs.len()
        invariant
            a <= idxs@.len(),
            depth < 64,
            depth == path.len(),
            group_ok(ops@, idxs@, path),
            forall|b: int|
                0 <= b < sub@.len() ==> is_last(ops@, (#[trigger] sub@[b]) as int) && on_path(
                    ops@[sub@[b] as int].0,
                    path.push(nibble),
                ) && (a > 0 && sub@[b] <= idxs@[a - 1]),
            forall|b: int, c: int| 0 <= b < c < sub@.len() ==>
                (#[trigger] sub@[b]) < (#[trigger] sub@[c]),
            forall|x: int|
                0 <= x < a && ops@[(#[trigger] idxs@[x]) as int].0.nibble(depth as int) == nibble
                    ==> lists(sub@, idxs@[x] as int),
        decreases idxs@.len() - a,
    {
        let j = idxs[a];
        assert(is_last(ops@, idxs@[a as int] as int));
        let ghost before = sub@;
        proof {
            lemma_on_path_push(ops@[j as int].0, path, nibble);
            assert forall|b: int| 0 <= b < before.len() implies (#[trigger] before[b]) < j by {
                assert(before[b] <= idxs@[a - 1]);
                assert(idxs@[a - 1] < idxs@[a as int]);
            }
        }
        if ops[j].0.get_nibble(depth) == nibble {
            sub.push(j);
            assert(sub@[sub@.len() - 1] == j);
            assert forall|x: int|
                0 <= x <= a && ops@[(#[trigger] idxs@[x]) as int].0.nibble(depth as int)
                    == nibble implies lists(sub@, idxs@[x] as int) by {
                if x < a {
                    let b = choose|b: int|
                        0 <= b < before.len() && (#[trigger] before[b]) as int == idxs@[x] as int;
                    assert(sub@[b] as int == idxs@[x] as int);
                }
            }
        }
        a += 1;
    }
    proof {
        assert forall|j: int| #[trigger]
            is_last(ops@, j) && on_path(ops@[j].0, path.push(nibble)) implies lists(sub@, j) by {
            lemma_on_path_push(ops@[j].0, path, nibble);
            assert(lists(idxs@, j));
            let x = choose|x: int| 0 <= x < idxs@.len() && (#[trigger] idxs@[x]) as int == j;
            assert(ops@[idxs@[x] as int].0.nibble(depth as int) == nibble);
        }
    }
    sub
}

/// Whether `first` is the first of the first `n` entries of `idxs` that
/// puts a value, and `more` says that another one follows it.
pub open spec fn puts_found(
    ops: Seq<Op>,
    idxs: Seq<usize>,
    n: int,
    first: Option<usize>,
    more: bool,
) -> bool {
    match first {
        None => !more && forall|x: int| 0 <= x < n ==> ops[(#[trigger] idxs[x]) as int].1 is None,
        Some(j) => {
            &&& j < ops.len()
            &&& ops[j as int].1 is Some
            &&& exists|x: int| 0 <= x < n && #[trigger] idxs[x] == j
            &&& if more {
                exists|x: int|
                    0 <= x < n && (#[trigger] idxs[x]) != j && ops[idxs[x] as int].1 is Some
            } else {
                forall|x: int|
                    0 <= x < n && (#[trigger] idxs[x]) != j ==> ops[idxs[x] as int].1 is None
            }
        },
    }
}

/// The first of the entries `idxs` that puts a value, and whether another
/// one follows it.
fn find_puts(ops: &Vec<Op>, idxs: &Vec<usize>) -> (r: (Option<usize>, bool))
    requires
        in_bounds(idxs@, ops@.len() as int),
    ensures
        puts_found(ops@, idxs@, idxs@.len() as int, r.0, r.1),
{
    let mut first: Option<usize> = None;
    let mut more = false;
    let mut a: usize = 0;
    while a < idxs.len()
        invariant
            a <= idxs@.len(),
            in_bounds(idxs@, ops@.len() as int),
            puts_found(ops@, idxs@, a as int, first, more),
        decreases idxs@.len() - a,
    {
        let j = idxs[a];
        let ghost first0 = first;
        let ghost more0 = more;
        if ops[j].1.is_some() {
            match first {
                None => {
                    first = Some(j);
                },
                Some(f) => {
                    if f != j {
                        more = true;
                    }
                },
            }
        }
        proof {
            assert(idxs@[a as int] == j);
            if let Some(f) = first0 {
                let x = choose|x: int| 0 <= x < a && #[trigger] idxs@[x] == f;
                assert(0 <= x < a + 1 && idxs@[x] == f);
                if more0 {
                    let y = choose|y: int|
                        0 <= y < a && (#[trigger] idxs@[y]) != f && ops@[idxs@[y] as int].1 is Some;
                    assert(0 <= y < a + 1 && idxs@[y] != f);
                }
            }
        }
        a += 1;
    }
    (first, more)
}

/// Whether one of the entries `idxs` has the key `key`.
fn has_key(ops: &Vec<Op>, idxs: &Vec<usize>, key: &KeyHash) -> (r: bool)
    requires
        in_bounds(idxs@, ops@.len() as int),
    ensures
        r == exists|a: int| 0 <= a < idxs@.len() && ops@[(#[trigger] idxs@[a]) as int].0 == *key,
{
    let mut a: usize = 0;
    while a < idxs.len()
        invariant
            a <= idxs@.len(),
            in_bounds(idxs@, ops@.len() as int),
            forall|x: int| 0 <= x < a ==> ops@[(#[trigger] idxs@[x]) as int].0 != *key,
        decreases idxs@.len() - a,
    {
        if ops[idxs[a]].0.same(key) {
            return true;
        }
        a += 1;
    }
    false
}

/// Whether `k` is the key of a node that `version` wrote at `path` or
/// below it.
pub open spec fn below(k: NodeKeyView, version: Version, path: Seq<u8>) -> bool {
    k.version == version && under(k.path, path)
}

/// Whether `live` holds no node that `version` wrote at `path` or below it.
pub open spec fn slot_free(
    live: Map<NodeKeyView, NodeView>,
    version: Version,
    path: Seq<u8>,
) -> bool {
    forall|k: NodeKeyView| #[trigger] live.contains_key(k) ==> !below(k, version, path)
}

/// Whether `after` holds the nodes of `before` and, besides, only nodes
/// that `version` wrote at `path` or below it; where `strict` is set, only
/// below it.
pub open spec fn grew(
    before: Map<NodeKeyView, NodeView>,
    after: Map<NodeKeyView, NodeView>,
    version: Version,
    path: Seq<u8>,
    strict: bool,
) -> bool {
    &&& extends(after, before)
    &&& forall|k: NodeKeyView| #[trigger]
        after.contains_key(k) && !before.contains_key(k) ==> below(k, version, path) && (strict
            ==> k.path.len() > path.len())
}

/// Whether `after` holds the stale marks of `before` and, besides, only
/// marks of `version` for nodes at `path` or below it; where `strict` is
/// set, only below it.
pub open spec fn stale_grew(
    before: Set<StaleNodeIndexView>,
    after: Set<StaleNodeIndexView>,
    version: Version,
    path: Seq<u8>,
    strict: bool,
) -> bool {
    &&& before.subset_of(after)
    &&& forall|m: StaleNodeIndexView| #[trigger]
        after.contains(m) && !before.contains(m) ==> m.stale_since_version == version && under(
            m.node_key.path,
            path,
        ) && (strict ==> m.node_key.path.len() > path.len())
}

/// Whether `stale` holds no mark of a node at `path` or below it; where
/// `strict` is set, of a node below it.
pub open spec fn stale_free(stale: Set<StaleNodeIndexView>, path: Seq<u8>, strict: bool) -> bool {
    forall|m: StaleNodeIndexView| #[trigger]
        stale.contains(m) ==> !(under(m.node_key.path, path) && (strict ==> m.node_key.path.len()
            > path.len()))
}

/// Whether `version` wrote all the nodes of `live`.
pub open spec fn live_at(live: Map<NodeKeyView, NodeView>, version: Version) -> bool {
    forall|k: NodeKeyView| #[trigger] live.contains_key(k) ==> k.version == version
}

/// What a failure says of the store under the cache: a missing node is not
/// there, and a failure of the store shows that the store can fail.
pub open spec fn update_failed<R: TreeReader>(cache: &TreeCache<R>, e: JmtError) -> bool {
    match e {
        JmtError::MissingNode(k) => !cache.store().contains_key(k@),
        JmtError::Reader => !cache.reliable(),
        JmtError::InvalidOperation => true,
        _ => false,
    }
}

/// Whether the cache `after` is the cache `before` with more live nodes, all
/// written at `path` or below it, and perhaps more stale marks.
pub open spec fn cache_grew<R: TreeReader>(
    before: &TreeCache<R>,
    after: &TreeCache<R>,
    path: Seq<u8>,
    strict: bool,
) -> bool {
    &&& after.same_base(before)
    &&& after.root() == before.root()
    &&& grew(before.live(), after.live(), before.version(), path, strict)
    &&& stale_grew(before.stale(), after.stale(), before.version(), path, strict)
}

/// Whether the store holds no node that `version` wrote.
pub open spec fn version_unused(store: Map<NodeKeyView, NodeView>, version: Version) -> bool {
    forall|k: NodeKeyView| #[trigger] store.contains_key(k) ==> k.version != version
}

/// The node that stands at a place, the empty node where none does.
pub open spec fn opt_node(o: Option<Node>) -> NodeView {
    match o {
        Some(n) => n@,
        None => NodeView::Null,
    }
}

/// Whether the store under the cache is reliable and has nothing of the
/// version of the batch, and `base` is a well-formed subtree at `path`.
pub open spec fn premises<R: TreeReader>(
    cache: &TreeCache<R>,
    base: NodeView,
    path: Seq<u8>,
) -> bool {
    &&& cache.reliable()
    &&& version_unused(cache.store(), cache.version())
    &&& live_at(cache.live(), cache.version())
    &&& base is Null || node_wf(cache.nodes(), base, path)
}

/// Whether `made` is a well-formed subtree at `path` that holds, for every
/// key on the way through `path`, what the batch asks for it, and else
/// what `base` held.
pub open spec fn applied_ok(
    before: Map<NodeKeyView, NodeView>,
    after: Map<NodeKeyView, NodeView>,
    ops: Seq<Op>,
    base: NodeView,
    made: NodeView,
    path: Seq<u8>,
) -> bool {
    &&& made is Null || node_wf(after, made, path)
    &&& forall|k: KeyHash| #[trigger]
        on_path(k, path) ==> lookup_node(after, made, path.len() as int, k) == applied(
            ops,
            lookup_node(before, base, path.len() as int, k),
            k,
        )
}

/// The value that the subtree under the child in a slot holds for `key`.
pub open spec fn slot_lookup(
    nodes: Map<NodeKeyView, NodeView>,
    slot: Option<Child>,
    path: Seq<u8>,
    i: int,
    key: KeyHash,
) -> Option<Seq<u8>> {
    match slot {
        Some(c) => lookup_node(nodes, nodes[child_key(c, path, i)], (path.len() + 1) as int, key),
        None => None,
    }
}

/// Whether the child in a slot is as the slot records it and well formed.
pub open spec fn slot_wf(
    nodes: Map<NodeKeyView, NodeView>,
    slot: Option<Child>,
    path: Seq<u8>,
    i: int,
) -> bool {
    slot matches Some(c) ==> child_agrees(nodes, c, path, i) && node_wf(
        nodes,
        nodes[child_key(c, path, i)],
        path.push(i as u8),
    )
}

/// Whether the child in slot `i` of the node at `path` is well formed and
/// holds, for every key on the way through it, what the batch asks for it,
/// and else what `base` held, which stood at depth `depth` in `before`.
pub open spec fn slot_good(
    nodes: Map<NodeKeyView, NodeView>,
    ops: Seq<Op>,
    slot: Option<Child>,
    path: Seq<u8>,
    i: int,
    before: Map<NodeKeyView, NodeView>,
    base: NodeView,
    depth: int,
) -> bool {
    &&& slot_wf(nodes, slot, path, i)
    &&& forall|k: KeyHash| #[trigger]
        on_path(k, path.push(i as u8)) ==> slot_lookup(nodes, slot, path, i, k) == applied(
            ops,
            lookup_node(before, base, depth, k),
            k,
        )
}

/// A slot that is good stays good when nodes are added.
pub proof fn lemma_slot_frame(
    smaller: Map<NodeKeyView, NodeView>,
    larger: Map<NodeKeyView, NodeView>,
    ops: Seq<Op>,
    slot: Option<Child>,
    path: Seq<u8>,
    i: int,
    before: Map<NodeKeyView, NodeView>,
    base: NodeView,
    depth: int,
)
    requires
        extends(larger, smaller),
        slot_good(smaller, ops, slot, path, i, before, base, depth),
    ensures
        slot_good(larger, ops, slot, path, i, before, base, depth),
{
    if let Some(c) = slot {
        let k = child_key(c, path, i);
        assert(smaller.contains_key(k));
        lemma_frame(smaller, larger, smaller[k], path.push(i as u8));
        assert forall|key: KeyHash| #[trigger] on_path(key, path.push(i as u8)) implies slot_lookup(
            larger,
            slot,
            path,
            i,
            key,
        ) == applied(ops, lookup_node(before, base, depth, key), key) by {
            assert(slot_lookup(smaller, slot, path, i, key) == applied(
                ops,
                lookup_node(before, base, depth, key),
                key,
            ));
            assert(path.push(i as u8).len() == path.len() + 1);
            assert(lookup_node(larger, smaller[k], (path.len() + 1) as int, key) == lookup_node(
                smaller,
                smaller[k],
                (path.len() + 1) as int,
                key,
            ));
        }
    } else {
        assert forall|key: KeyHash| #[trigger] on_path(key, path.push(i as u8)) implies slot_lookup(
            larger,
            slot,
            path,
            i,
            key,
        ) == applied(ops, lookup_node(before, base, depth, key), key) by {
            assert(slot_lookup(smaller, slot, path, i, key) == applied(
                ops,
                lookup_node(before, base, depth, key),
                key,
            ));
        }
    }
}

/// The nodes of which a cache knows stay as they are when it grows, where
/// the store has nothing of the version of the batch.
pub proof fn lemma_nodes_extend<R: TreeReader>(
    before: &TreeCache<R>,
    after: &TreeCache<R>,
    path: Seq<u8>,
    strict: bool,
)
    requires
        cache_grew(before, after, path, strict),
        before.frozen() == Map::<NodeKeyView, NodeView>::empty(),
        version_unused(before.store(), before.version()),
    ensures
        extends(after.nodes(), before.nodes()),
        before.nodes() == before.store().union_prefer_right(before.live()),
        after.nodes() == after.store().union_prefer_right(after.live()),
{
    assert(before.written() =~= before.live());
    assert(after.written() =~= after.live());
    assert forall|k: NodeKeyView| #[trigger] before.nodes().contains_key(k)
        implies after.nodes().contains_key(
        k,
    ) && after.nodes()[k] == before.nodes()[k] by {
        if before.live().contains_key(k) {
            assert(after.live().contains_key(k));
        } else {
            assert(before.store().contains_key(k));
            if after.live().contains_key(k) {
                assert(below(k, before.version(), path));
            }
        }
    }
}

/// A place at or below the child in one slot is below the node, and not
/// below the child in another slot.
pub proof fn lemma_under_push(p: Seq<u8>, path: Seq<u8>, i: u8, j: u8)
    requires
        under(p, path.push(i)),
    ensures
        under(p, path),
        p.len() > path.len(),
        p[path.len() as int] == i,
        i != j ==> !under(p, path.push(j)),
{
    let d = path.len() as int;
    let sub = p.subrange(0, d + 1);
    assert(sub[d] == i);
    assert(p.subrange(0, d) =~= sub.subrange(0, d));
    assert(path.push(i).subrange(0, d) =~= path);
    if i != j && under(p, path.push(j)) {
        assert(path.push(j)[d] == j);
    }
}

/// A key below the child in one slot is not below the child in another.
pub proof fn lemma_below_push(k: NodeKeyView, version: Version, path: Seq<u8>, i: u8, j: u8)
    requires
        below(k, version, path.push(i)),
    ensures
        below(k, version, path),
        k.path.len() > path.len(),
        k.path[path.len() as int] == i,
        i != j ==> !below(k, version, path.push(j)),
{
    lemma_under_push(k.path, path, i, j);
}

/// Writes `node` as the child in slot `slot` of the node at `path`, and
/// returns what the parent records of it.
fn place_child<R: TreeReader>(
    cache: &mut TreeCache<'_, R>,
    path: &NibblePath,
    slot: u8,
    node: Node,
) -> (c: Child)
    requires
        path@.len() < 64,
        slot < 16,
        !(node@ is Null),
        !old(cache).live().contains_key(
            NodeKeyView { version: old(cache).version(), path: path@.push(slot) },
        ),
    ensures
        final(cache).same_base(old(cache)),
        final(cache).root() == old(cache).root(),
        final(cache).stale() == old(cache).stale(),
        final(cache).live() == old(cache).live().insert(
            NodeKeyView { version: old(cache).version(), path: path@.push(slot) },
            node@,
        ),
        c.version == old(cache).version(),
        c.hash@ == node@.spec_hash(),
        c.is_leaf == (node@ is Leaf),
        c.leaf_count == node@.spec_leaf_count(),
{
    let version = cache.next_version();
    let mut child_path = path.clone();
    child_path.push(slot);
    let child = Child {
        hash: node.hash(),
        version,
        is_leaf: node.is_leaf(),
        leaf_count: node.leaf_count(),
    };
    match cache.put_node(NodeKey::new(version, child_path), node) {
        Ok(()) => {},
        Err(_) => {
            assert(false);
        },
    }
    child
}

/// Whether `after` holds a node under `k` that `before` did not hold.
pub open spec fn new_live(
    before: Map<NodeKeyView, NodeView>,
    after: Map<NodeKeyView, NodeView>,
    k: NodeKeyView,
) -> bool {
    after.contains_key(k) && !before.contains_key(k)
}

/// Whether `after` holds the mark that `k` went stale at `version`, and
/// `before` did not hold it.
pub open spec fn new_stale(
    before: Set<StaleNodeIndexView>,
    after: Set<StaleNodeIndexView>,
    version: Version,
    k: NodeKeyView,
) -> bool {
    after.contains(stale_mark(version, k)) && !before.contains(stale_mark(version, k))
}

/// The account of one node over a step: it is part of the tree afterwards
/// or was marked stale, and not both, just where it was part of the tree
/// before or was written.
pub open spec fn counted(was_part: bool, is_part: bool, written: bool, marked: bool) -> bool {
    ((is_part || marked) <==> (was_part || written)) && !(is_part && marked)
}

/// Whether the node with the key `k` is the child in slot `i` of the node
/// at `path`, or part of the subtree under that child.
pub open spec fn slot_reach(
    nodes: Map<NodeKeyView, NodeView>,
    slot: Option<Child>,
    path: Seq<u8>,
    i: int,
    k: NodeKeyView,
) -> bool {
    slot matches Some(c) && (k == child_key(c, path, i) || reaches(
        nodes,
        nodes[child_key(c, path, i)],
        path.push(i as u8),
        k,
    ))
}

/// The account of the node `k` over the making of the node at `path` from
/// the children of `node`.
pub open spec fn finish_counted<R: TreeReader>(
    before: &TreeCache<R>,
    after: &TreeCache<R>,
    node: InternalNode,
    made: NodeView,
    path: Seq<u8>,
    k: NodeKeyView,
) -> bool {
    counted(
        reaches(before.nodes(), NodeView::Internal(node), path, k),
        reaches(before.nodes(), made, path, k),
        false,
        new_stale(before.stale(), after.stale(), before.version(), k),
    )
}

/// The account of the node `k` over the work on slot `i` of the node at
/// `path`.
pub open spec fn slot_counted<R: TreeReader>(
    before: &TreeCache<R>,
    after: &TreeCache<R>,
    old_slot: Option<Child>,
    new_slot: Option<Child>,
    path: Seq<u8>,
    i: int,
    k: NodeKeyView,
) -> bool {
    counted(
        slot_reach(before.nodes(), old_slot, path, i, k),
        slot_reach(after.nodes(), new_slot, path, i, k),
        new_live(before.live(), after.live(), k),
        new_stale(before.stale(), after.stale(), before.version(), k),
    )
}

/// The account of the node `k` over the work on the subtree at `path`,
/// whose root was `base` and is `made`.
pub open spec fn subtree_counted<R: TreeReader>(
    before: &TreeCache<R>,
    after: &TreeCache<R>,
    base: NodeView,
    made: NodeView,
    path: Seq<u8>,
    k: NodeKeyView,
) -> bool {
    counted(
        reaches(before.nodes(), base, path, k),
        reaches(after.nodes(), made, path, k),
        new_live(before.live(), after.live(), k),
        new_stale(before.stale(), after.stale(), before.version(), k),
    )
}

/// Whether no child of `node`, which stands at `path`, is marked stale at
/// `version`.
pub open spec fn children_unmarked(
    stale: Set<StaleNodeIndexView>,
    version: Version,
    node: InternalNode,
    path: Seq<u8>,
) -> bool {
    forall|i: int|
        0 <= i < 16 ==> ((#[trigger] node.children@[i]) matches Some(c) ==> !stale.contains(
            stale_mark(version, child_key(c, path, i)),
        ))
}

/// A place below a node is at or below the child in the slot of its next
/// nibble.
pub proof fn lemma_under_slot(p: Seq<u8>, path: Seq<u8>)
    requires
        under(p, path),
        p.len() > path.len(),
    ensures
        under(p, path.push(p[path.len() as int])),
{
    let d = path.len() as int;
    assert(p.subrange(0, d + 1) =~= p.subrange(0, d).push(p[d]));
}

/// The child in a slot and the subtree under it have the same nodes when
/// nodes are added to the store.
pub proof fn lemma_slot_reach_frame(
    smaller: Map<NodeKeyView, NodeView>,
    larger: Map<NodeKeyView, NodeView>,
    slot: Option<Child>,
    path: Seq<u8>,
    i: int,
    k: NodeKeyView,
)
    requires
        extends(larger, smaller),
        slot_wf(smaller, slot, path, i),
    ensures
        slot_reach(larger, slot, path, i, k) == slot_reach(smaller, slot, path, i, k),
{
    if let Some(c) = slot {
        let ck = child_key(c, path, i);
        assert(smaller.contains_key(ck));
        lemma_reaches_frame(smaller, larger, smaller[ck], path.push(i as u8), k);
    }
}

/// Whether every child of `node`, which stands at `path`, is as the node
/// records it and well formed.
pub open spec fn children_ok(
    nodes: Map<NodeKeyView, NodeView>,
    node: InternalNode,
    path: Seq<u8>,
) -> bool {
    forall|i: int| 0 <= i < 16 ==> slot_wf(nodes, #[trigger] node.children@[i], path, i)
}

/// Whether `made` is a well-formed subtree at `path` that holds the values
/// that the inner node `node` would hold there.
pub open spec fn finished_ok(
    nodes: Map<NodeKeyView, NodeView>,
    node: InternalNode,
    made: NodeView,
    path: Seq<u8>,
) -> bool {
    &&& made is Null || node_wf(nodes, made, path)
    &&& forall|k: KeyHash| #[trigger]
        on_path(k, path) ==> lookup_node(nodes, made, path.len() as int, k) == lookup_node(
            nodes,
            NodeView::Internal(node),
            path.len() as int,
            k,
        )
}

/// Makes the node at `path` from its new children: no node where it has
/// none, its one child where that is a leaf, which then leaves its place,
/// else an inner node.
fn finish_node<R: TreeReader>(
    cache: &mut TreeCache<'_, R>,
    path: &NibblePath,
    node: InternalNode,
) -> (r: Result<Option<Node>, JmtError>)
    requires
        path@.len() < 64,
    ensures
        final(cache).same_base(old(cache)),
        final(cache).root() == old(cache).root(),
        final(cache).live() == old(cache).live(),
        stale_grew(old(cache).stale(), final(cache).stale(), old(cache).version(), path@, true),
        r matches Err(e) ==> update_failed(old(cache), e),
        old(cache).reliable() && children_ok(old(cache).nodes(), node, path@) ==> r is Ok,
        r matches Ok(made) ==> !(made matches Some(n) && n@ is Null),
        r matches Ok(made) ==> (children_ok(old(cache).nodes(), node, path@) ==> finished_ok(
            old(cache).nodes(),
            node,
            opt_node(made),
            path@,
        )),
        r matches Ok(made) ==> (children_ok(old(cache).nodes(), node, path@) && children_unmarked(
            old(cache).stale(),
            old(cache).version(),
            node,
            path@,
        ) ==> forall|k: NodeKeyView| #[trigger]
            finish_counted(old(cache), final(cache), node, opt_node(made), path@, k)),
{
    let ghost nodes = cache.nodes();
    let ghost d = path@.len() as int;
    let ghost before = *cache;
    let count = node.num_children();
    proof {
        lemma_first_slot_in(node.children@, 0, 16);
    }
    if count == 0 {
        proof {
            assert forall|k: KeyHash| #[trigger] on_path(k, path@) implies lookup_node(
                nodes,
                NodeView::Null,
                d,
                k,
            ) == lookup_node(nodes, NodeView::Internal(node), d, k) by {
                lemma_nibble_bound(k, d);
            }
        }
        return Ok(None);
    }
    if count == 1 {
        let slot = node.first_child_slot();
        if slot < 16 {
            if let Some(child) = node.child(slot as u8) {
                if child.is_leaf {
                    let mut child_path = path.clone();
                    child_path.push(slot as u8);
                    let child_key = NodeKey::new(child.version, child_path);
                    assert(child_key@ == crate::model::child_key(child, path@, slot as int));
                    assert(node.children@[slot as int] == Some(child));
                    let leaf = match cache.get_node(&child_key) {
                        Ok(n) => n,
                        Err(e) => {
                            return Err(e);
                        },
                    };
                    if !leaf.is_leaf() {
                        return Err(JmtError::InvalidOperation);
                    }
                    cache.delete_node(&child_key, true);
                    proof {
                        assert(path@.push(slot as u8).subrange(0, d) =~= path@);
                        assert(under(child_key@.path, path@));
                        if children_ok(nodes, node, path@) {
                            let l = leaf@->Leaf_0;
                            let ck = crate::model::child_key(child, path@, slot as int);
                            assert(slot_wf(nodes, node.children@[slot as int], path@, slot as int));
                            assert(nodes[ck] == leaf@);
                            assert(node_wf(nodes, leaf@, path@.push(slot as u8)));
                            assert(path@.push(slot as u8).len() == d + 1);
                            assert(on_path(l.key_hash, path@.push(slot as u8)));
                            lemma_on_path_push(l.key_hash, path@, slot as u8);
                            assert(node_wf(nodes, leaf@, path@));
                            if children_unmarked(before.stale(), before.version(), node, path@) {
                                assert(!before.stale().contains(stale_mark(before.version(), ck)));
                                assert forall|k: NodeKeyView| #[trigger]
                                    finish_counted(&before, &*cache, node, leaf@, path@, k) by {
                                    assert(!reaches(nodes, leaf@, path@.push(slot as u8), k));
                                    assert(!reaches(nodes, leaf@, path@, k));
                                    assert(cache.stale() == before.stale().insert(
                                        stale_mark(before.version(), ck),
                                    ));
                                    if reaches(nodes, NodeView::Internal(node), path@, k) {
                                        let i = k.path[d] as int;
                                        if i != slot {
                                            assert(node.children@[i] is None);
                                        }
                                        assert(k == ck);
                                    }
                                    if k == ck {
                                        assert(under(ck.path, path@));
                                        assert(ck.path[d] == slot);
                                        assert(reaches(nodes, NodeView::Internal(node), path@, k));
                                    } else {
                                        assert(stale_mark(before.version(), k) != stale_mark(
                                            before.version(),
                                            ck,
                                        ));
                                    }
                                }
                            }
                            assert forall|k: KeyHash| #[trigger] on_path(k, path@)
                                implies lookup_node(
                                nodes,
                                leaf@,
                                d,
                                k,
                            ) == lookup_node(nodes, NodeView::Internal(node), d, k) by {
                                lemma_nibble_bound(k, d);
                                let i = k.nibble(d) as int;
                                if i != slot {
                                    assert(node.children@[i] is None);
                                    assert(l.key_hash != k);
                                } else {
                                    assert(k.nibbles(d) == path@);
                                    assert(crate::model::child_key(child, k.nibbles(d), i) == ck);
                                    assert(nodes.contains_key(ck));
                                    assert(lookup_node(nodes, NodeView::Internal(node), d, k)
                                        == lookup_node(nodes, leaf@, d + 1, k));
                                }
                            }
                        }
                    }
                    return Ok(Some(leaf));
                }
            }
        }
    }
    proof {
        if children_ok(nodes, node, path@) {
            assert(compact(node.children@));
            assert forall|i: int| 0 <= i < 16 implies ((#[trigger] node.children@[i]) matches Some(
                c,
            ) ==> child_agrees(nodes, c, path@, i) && node_wf(
                nodes,
                nodes[crate::model::child_key(c, path@, i)],
                path@.push(i as u8),
            )) by {
                assert(slot_wf(nodes, node.children@[i], path@, i));
            }
        }
    }
    Ok(Some(Node::Internal(node)))
}

/// The node that a leaf carried along stands for, the empty node where
/// there is none.
pub open spec fn carry_node(carry: Option<LeafNode>) -> NodeView {
    match carry {
        Some(l) => NodeView::Leaf(l@),
        None => NodeView::Null,
    }
}

/// Whether the leaf carried along, if there is one, stands on the way
/// through `path`, carries the hash of its value, and has a key for which
/// the batch asks nothing.
pub open spec fn carry_ok(ops: Seq<Op>, carry: Option<LeafNode>, path: Seq<u8>) -> bool {
    carry matches Some(l) ==> on_path(l@.key_hash, path) && path.len() <= 64 && l@.value_hash@
        == sha256(l@.value) && !ops_map(ops).contains_key(l@.key_hash)
}

/// Settles a place without children below it: where the entries put no
/// value and no leaf is carried along, nothing stands there; where there
/// is one leaf, carried along or put by the one entry that puts a value,
/// that leaf stands there. With more leaves the place needs an inner node,
/// and nothing is settled.
fn settle_small(
    ops: &Vec<Op>,
    idxs: &Vec<usize>,
    carry: &Option<LeafNode>,
    Ghost(path): Ghost<Seq<u8>>,
    Ghost(nodes): Ghost<Map<NodeKeyView, NodeView>>,
) -> (r: Option<Option<Node>>)
    requires
        group_ok(ops@, idxs@, path),
        path.len() <= 64,
    ensures
        r matches Some(made) ==> !(made matches Some(n) && n@ is Null),
        r matches Some(made) ==> !(opt_node(made) is Internal),
        carry_ok(ops@, *carry, path) ==> match r {
            Some(made) => applied_ok(nodes, nodes, ops@, carry_node(*carry), opt_node(made), path),
            None => path.len() < 64,
        },
{
    assert(in_bounds(idxs@, ops@.len() as int)) by {
        assert forall|a: int| 0 <= a < idxs@.len() implies (#[trigger] idxs@[a]) < ops@.len() by {
            assert(is_last(ops@, idxs@[a] as int));
        }
    }
    let (first, more) = find_puts(ops, idxs);
    let ghost d = path.len() as int;
    match (first, carry) {
        (None, None) => {
            proof {
                assert forall|k: KeyHash| #[trigger] on_path(k, path) implies lookup_node(
                    nodes,
                    NodeView::Null,
                    d,
                    k,
                ) == applied(ops@, lookup_node(nodes, NodeView::Null, d, k), k) by {
                    if ops_map(ops@).contains_key(k) {
                        lemma_group_key(ops@, idxs@, path, k);
                    }
                }
            }
            Some(None)
        },
        (None, Some(l)) => {
            proof {
                if carry_ok(ops@, *carry, path) {
                    assert forall|k: KeyHash| #[trigger] on_path(k, path) implies lookup_node(
                        nodes,
                        NodeView::Leaf(l@),
                        d,
                        k,
                    ) == applied(ops@, lookup_node(nodes, NodeView::Leaf(l@), d, k), k) by {
                        if ops_map(ops@).contains_key(k) {
                            lemma_group_key(ops@, idxs@, path, k);
                        }
                    }
                }
            }
            Some(Some(Node::Leaf(l.clone())))
        },
        (Some(j), None) => {
            if more {
                proof {
                    let xj = choose|x: int| 0 <= x < idxs@.len() && #[trigger] idxs@[x] == j;
                    let x = choose|x: int|
                        0 <= x < idxs@.len() && (#[trigger] idxs@[x]) != j &&
                            ops@[idxs@[x] as int].1 is Some;
                    lemma_group_distinct(ops@, idxs@, path, xj, x);
                    if path.len() == 64 {
                        lemma_same_nibbles(ops@[idxs@[xj] as int].0, ops@[idxs@[x] as int].0);
                    }
                }
                None
            } else {
                let value = match &ops[j].1 {
                    Some(v) => v.clone(),
                    None => Vec::new(),
                };
                let made = Node::new_leaf(ops[j].0, value);
                proof {
                    let xj = choose|x: int| 0 <= x < idxs@.len() && #[trigger] idxs@[x] == j;
                    assert(is_last(ops@, idxs@[xj] as int));
                    lemma_ops_last(ops@, j as int);
                    assert(value@ =~= ops@[j as int].1->Some_0@);
                    assert forall|k: KeyHash| #[trigger] on_path(k, path) implies lookup_node(
                        nodes,
                        made@,
                        d,
                        k,
                    ) == applied(ops@, lookup_node(nodes, NodeView::Null, d, k), k) by {
                        if k != ops@[j as int].0 && ops_map(ops@).contains_key(k) {
                            lemma_group_key(ops@, idxs@, path, k);
                        }
                    }
                }
                Some(Some(made))
            }
        },
        (Some(j), Some(l)) => {
            proof {
                if carry_ok(ops@, *carry, path) {
                    let xj = choose|x: int| 0 <= x < idxs@.len() && #[trigger] idxs@[x] == j;
                    assert(is_last(ops@, idxs@[xj] as int));
                    lemma_ops_last(ops@, j as int);
                    if path.len() == 64 {
                        lemma_same_nibbles(ops@[j as int].0, l@.key_hash);
                    }
                }
            }
            None
        },
    }
}

/// The node that stood under slot `slot` of the node at `path` before the
/// entries are applied: the child that the slot held, or the leaf carried
/// along, or nothing.
pub open spec fn slot_base(
    nodes: Map<NodeKeyView, NodeView>,
    old_child: Option<Child>,
    carry_here: Option<LeafNode>,
    path: Seq<u8>,
    slot: int,
) -> NodeView {
    match old_child {
        Some(c) => nodes[child_key(c, path, slot)],
        None => carry_node(carry_here),
    }
}

/// Whether the store under the cache is reliable and has nothing of the
/// version of the batch, the child that the slot held is well formed, and
/// a leaf carried along comes to an empty slot on its way.
pub open spec fn slot_premises<R: TreeReader>(
    cache: &TreeCache<R>,
    ops: Seq<Op>,
    old_child: Option<Child>,
    carry_here: Option<LeafNode>,
    path: Seq<u8>,
    slot: int,
) -> bool {
    &&& cache.reliable()
    &&& version_unused(cache.store(), cache.version())
    &&& live_at(cache.live(), cache.version())
    &&& slot_wf(cache.nodes(), old_child, path, slot)
    &&& carry_here is Some ==> old_child is None && carry_ok(ops, carry_here, path.push(slot as u8))
}

/// Applies the entries of `idxs` whose keys go through slot `slot` of the
/// node at `path`, and returns what the new node records in that slot.
fn apply_slot<R: TreeReader>(
    cache: &mut TreeCache<'_, R>,
    ops: &Vec<Op>,
    idxs: &Vec<usize>,
    old_child: Option<Child>,
    carry_here: Option<LeafNode>,
    path: &NibblePath,
    slot: u8,
) -> (r: Result<Option<Child>, JmtError>)
    requires
        path@.len() < 64,
        slot < 16,
        group_ok(ops@, idxs@, path@),
        old(cache).frozen() == Map::<NodeKeyView, NodeView>::empty(),
        slot_free(old(cache).live(), old(cache).version(), path@.push(slot)),
        stale_free(old(cache).stale(), path@.push(slot), false),
    ensures
        cache_grew(old(cache), final(cache), path@.push(slot), false),
        r matches Err(e) ==> update_failed(old(cache), e),
        slot_premises(old(cache), ops@, old_child, carry_here, path@, slot as int) ==> r is Ok,
        r matches Ok(c) ==>
            (slot_premises(old(cache), ops@, old_child, carry_here, path@, slot as int)
            ==> slot_good(
            final(cache).nodes(),
            ops@,
            c,
            path@,
            slot as int,
            old(cache).nodes(),
            slot_base(old(cache).nodes(), old_child, carry_here, path@, slot as int),
            (path@.len() + 1) as int,
        )),
        r matches Ok(c) ==>
            (slot_premises(old(cache), ops@, old_child, carry_here, path@, slot as int)
            ==> forall|k: NodeKeyView| #[trigger]
            slot_counted(old(cache), final(cache), old_child, c, path@, slot as int, k)),
    decreases 64 - path@.len(), 0nat,
{
    let depth = path.num_nibbles();
    let ghost d = path@.len() as int;
    let ghost n0 = cache.nodes();
    let ghost before = *cache;
    let ghost p = slot_premises(old(cache), ops@, old_child, carry_here, path@, slot as int);
    let ghost base = slot_base(n0, old_child, carry_here, path@, slot as int);
    let ghost version = cache.version();
    let ghost key = NodeKeyView { version, path: path@.push(slot) };
    let sub = select(ops, idxs, depth, slot, Ghost(path@));
    proof {
        assert(below(key, version, path@.push(slot))) by {
            assert(key.path.subrange(0, key.path.len() as int) =~= key.path);
        }
        assert(!cache.live().contains_key(key));
    }
    if sub.len() == 0 {
        proof {
            assert forall|k: KeyHash| #[trigger] on_path(k, path@.push(slot)) implies !ops_map(
                ops@,
            ).contains_key(k) by {
                if ops_map(ops@).contains_key(k) {
                    lemma_group_key(ops@, sub@, path@.push(slot), k);
                }
            }
        }
        if old_child.is_some() {
            return Ok(old_child);
        }
        return match carry_here {
            Some(l) => {
                let ghost lv = l@;
                let child = place_child(cache, path, slot, Node::Leaf(l));
                proof {
                    if p {
                        lemma_nodes_extend(&before, &*cache, path@.push(slot), false);
                        let n1 = cache.nodes();
                        assert(n1.contains_key(key) && n1[key] == NodeView::Leaf(lv));
                        assert(child_key(child, path@, slot as int) == key);
                        assert(path@.push(slot).len() == d + 1);
                        assert forall|k: NodeKeyView| #[trigger]
                            slot_counted(
                                &before,
                                &*cache,
                                old_child,
                                Some(child),
                                path@,
                                slot as int,
                                k,
                            ) by {}
                    }
                }
                Ok(Some(child))
            },
            None => Ok(None),
        };
    }
    let mut child_path = path.clone();
    child_path.push(slot);
    let below_node: Option<Node> = match old_child {
        Some(c) => {
            let child_node_key = NodeKey::new(c.version, child_path.clone());
            assert(child_node_key@ == child_key(c, path@, slot as int));
            let n = match cache.get_node(&child_node_key) {
                Ok(n) => n,
                Err(e) => {
                    return Err(e);
                },
            };
            cache.delete_node(&child_node_key, c.is_leaf);
            Some(n)
        },
        None => match carry_here {
            Some(l) => Some(Node::Leaf(l)),
            None => None,
        },
    };
    let ghost mid = *cache;
    let ghost oc = old_child is Some;
    let ghost ck = if oc {
        child_key(old_child->Some_0, path@, slot as int)
    } else {
        key
    };
    proof {
        assert(mid.nodes() == n0);
        assert(opt_node(below_node) == base);
        assert(child_path@.len() == d + 1);
        assert(under(child_path@, path@.push(slot))) by {
            assert(child_path@.subrange(0, child_path@.len() as int) =~= child_path@);
        }
        assert(stale_free(mid.stale(), child_path@, true));
        if p {
            assert(premises(&mid, base, child_path@));
        }
    }
    let made = match apply_ops(cache, ops, &sub, below_node, &child_path) {
        Ok(m) => m,
        Err(e) => {
            proof {
                assert(cache_grew(&before, &*cache, path@.push(slot), false));
            }
            return Err(e);
        },
    };
    let ghost after = *cache;
    proof {
        assert(cache_grew(&before, &after, path@.push(slot), false));
        assert(!after.live().contains_key(key));
    }
    match made {
        Some(n) => {
            let ghost nv = n@;
            let child = place_child(cache, path, slot, n);
            proof {
                assert(cache_grew(&before, &*cache, path@.push(slot), false));
                if p {
                    lemma_nodes_extend(&mid, &after, child_path@, true);
                    lemma_nodes_extend(&before, &*cache, path@.push(slot), false);
                    lemma_nodes_extend(&before, &after, path@.push(slot), false);
                    let n1 = after.nodes();
                    let n2 = cache.nodes();
                    assert(extends(n2, n1)) by {
                        assert forall|k: NodeKeyView| #[trigger] n1.contains_key(k)
                            implies n2.contains_key(
                            k,
                        ) && n2[k] == n1[k] by {}
                    }
                    assert(applied_ok(n0, n1, ops@, base, nv, child_path@));
                    lemma_frame(n1, n2, nv, child_path@);
                    assert(n2.contains_key(key) && n2[key] == nv);
                    assert(child_key(child, path@, slot as int) == key);
                    assert forall|k: KeyHash| #[trigger] on_path(k, path@.push(slot))
                        implies slot_lookup(
                        n2,
                        Some(child),
                        path@,
                        slot as int,
                        k,
                    ) == applied(ops@, lookup_node(n0, base, d + 1, k), k) by {
                        assert(on_path(k, child_path@));
                        assert(lookup_node(n2, nv, child_path@.len() as int, k) == lookup_node(
                            n1,
                            nv,
                            child_path@.len() as int,
                            k,
                        ));
                    }
                    assert forall|k: NodeKeyView| #[trigger]
                        slot_counted(&before, &*cache, old_child, Some(child), path@, slot as int, k) by {
                        assert(subtree_counted(&mid, &after, base, nv, child_path@, k));
                        lemma_reaches_frame(n1, n2, nv, child_path@, k);
                        lemma_slot_marks(&before, &mid, &after, old_child, path@, slot, k);
                    }
                }
            }
            Ok(Some(child))
        },
        None => {
            proof {
                if p {
                    let n1 = after.nodes();
                    assert(applied_ok(n0, n1, ops@, base, NodeView::Null, child_path@));
                    assert forall|k: KeyHash| #[trigger] on_path(k, path@.push(slot))
                        implies slot_lookup(
                        n1,
                        None,
                        path@,
                        slot as int,
                        k,
                    ) == applied(ops@, lookup_node(n0, base, d + 1, k), k) by {
                        assert(on_path(k, child_path@));
                        assert(lookup_node(n1, NodeView::Null, child_path@.len() as int, k) is None);
                    }
                    assert forall|k: NodeKeyView| #[trigger]
                        slot_counted(&before, &*cache, old_child, None, path@, slot as int, k) by {
                        assert(subtree_counted(&mid, &after, base, NodeView::Null, child_path@, k));
                        lemma_slot_marks(&before, &mid, &after, old_child, path@, slot, k);
                    }
                }
            }
            Ok(None)
        },
    }
}

/// Applies the entries `idxs` of `ops`, all of whose keys go through
/// `path`, to the subtree that stood at `path`: `existing` is its root, or
/// nothing where the place was empty. Returns the root of the new subtree,
/// which the caller writes, or nothing where no leaf is left. The nodes
/// below the new root are written to the cache, and those of the old
/// subtree that the entries touch are marked stale.
pub(crate) fn apply_ops<R: TreeReader>(
    cache: &mut TreeCache<'_, R>,
    ops: &Vec<Op>,
    idxs: &Vec<usize>,
    existing: Option<Node>,
    path: &NibblePath,
) -> (r: Result<Option<Node>, JmtError>)
    requires
        group_ok(ops@, idxs@, path@),
        old(cache).frozen() == Map::<NodeKeyView, NodeView>::empty(),
        slot_free(old(cache).live(), old(cache).version(), path@),
        stale_free(old(cache).stale(), path@, true),
    ensures
        cache_grew(old(cache), final(cache), path@, true),
        r matches Err(e) ==> update_failed(old(cache), e),
        premises(old(cache), opt_node(existing), path@) ==> r is Ok,
        r matches Ok(made) ==> !(made matches Some(n) && n@ is Null),
        r matches Ok(made) ==> (premises(old(cache), opt_node(existing), path@) ==> applied_ok(
            old(cache).nodes(),
            final(cache).nodes(),
            ops@,
            opt_node(existing),
            opt_node(made),
            path@,
        )),
        r matches Ok(made) ==> (premises(old(cache), opt_node(existing), path@) ==> forall|
            k: NodeKeyView,
        | #[trigger]
            subtree_counted(
                old(cache),
                final(cache),
                opt_node(existing),
                opt_node(made),
                path@,
                k,
            )),
    decreases 64 - path@.len(), 1nat,
{
    let depth = path.num_nibbles();
    let ghost d = path@.len() as int;
    let ghost n0 = cache.nodes();
    let ghost before = *cache;
    let ghost version = cache.version();
    let ghost base0 = opt_node(existing);
    let ghost p = premises(old(cache), base0, path@);
    assert(in_bounds(idxs@, ops@.len() as int)) by {
        assert forall|a: int| 0 <= a < idxs@.len() implies (#[trigger] idxs@[a]) < ops@.len() by {
            assert(is_last(ops@, idxs@[a] as int));
        }
    }
    let mut base = InternalNode::new();
    let mut carry: Option<LeafNode> = None;
    let mut inner = false;
    match existing {
        Some(Node::Internal(n)) => {
            base = n;
            inner = true;
        },
        Some(Node::Leaf(l)) => {
            let dropped = has_key(ops, idxs, &l.key_hash());
            proof {
                if p {
                    if dropped {
                        let a = choose|a: int|
                            0 <= a < idxs@.len() && ops@[(#[trigger] idxs@[a]) as int].0
                                == l@.key_hash;
                        assert(is_last(ops@, idxs@[a] as int));
                        lemma_ops_last(ops@, idxs@[a] as int);
                    } else {
                        if ops_map(ops@).contains_key(l@.key_hash) {
                            lemma_group_key(ops@, idxs@, path@, l@.key_hash);
                        }
                    }
                }
            }
            if !dropped {
                carry = Some(l);
            }
        },
        _ => {},
    }
    let ghost base_eff: NodeView = if inner {
        NodeView::Internal(base)
    } else {
        carry_node(carry)
    };
    proof {
        if p {
            assert(base_eff is Null || node_wf(n0, base_eff, path@));
            assert(!inner ==> carry_ok(ops@, carry, path@));
            assert forall|k: KeyHash| #[trigger] on_path(k, path@) implies applied(
                ops@,
                lookup_node(n0, base_eff, d, k),
                k,
            ) == applied(ops@, lookup_node(n0, base0, d, k), k) by {}
        }
    }
    if !inner {
        match settle_small(ops, idxs, &carry, Ghost(path@), Ghost(n0)) {
            Some(made) => {
                proof {
                    if p {
                        assert(applied_ok(n0, n0, ops@, base_eff, opt_node(made), path@));
                        assert forall|k: KeyHash| #[trigger] on_path(k, path@) implies lookup_node(
                            n0,
                            opt_node(made),
                            d,
                            k,
                        ) == applied(ops@, lookup_node(n0, base0, d, k), k) by {
                            assert(applied(ops@, lookup_node(n0, base_eff, d, k), k) == applied(
                                ops@,
                                lookup_node(n0, base0, d, k),
                                k,
                            ));
                        }
                        assert(!(opt_node(made) is Internal));
                        assert forall|k: NodeKeyView| #[trigger]
                            subtree_counted(&before, &*cache, base0, opt_node(made), path@, k) by {}
                    }
                }
                return Ok(made);
            },
            None => {},
        }
    }
    if depth >= 64 {
        return Err(JmtError::InvalidOperation);
    }
    let mut node = InternalNode::new();
    let mut slot: u8 = 0;
    while slot < 16
        invariant
            slot <= 16,
            depth < 64,
            depth == path@.len(),
            d == depth,
            group_ok(ops@, idxs@, path@),
            n0 == before.nodes(),
            before == *old(cache),
            version == before.version(),
            before.frozen() == Map::<NodeKeyView, NodeView>::empty(),
            slot_free(before.live(), version, path@),
            p == premises(&before, base0, path@),
            base0 == opt_node(existing),
            base_eff == (if inner {
                NodeView::Internal(base)
            } else {
                carry_node(carry)
            }),
            !inner ==> forall|i: int| 0 <= i < 16 ==> base.children@[i] is None,
            inner ==> carry is None,
            p ==> base_eff is Null || node_wf(n0, base_eff, path@),
            p && !inner ==> carry_ok(ops@, carry, path@),
            cache_grew(&before, &*cache, path@, true),
            forall|k: NodeKeyView| #[trigger]
                cache.live().contains_key(k) && below(k, version, path@) ==> k.path.len() > d
                    && k.path[d] < slot,
            stale_free(before.stale(), path@, true),
            forall|m: StaleNodeIndexView| #[trigger]
                cache.stale().contains(m) && under(m.node_key.path, path@) && m.node_key.path.len()
                    > d ==> m.node_key.path[d] < slot,
            forall|i: int| slot <= i < 16 ==> node.children@[i] is None,
            p ==> forall|i: int|
                0 <= i < slot ==> slot_good(
                    cache.nodes(),
                    ops@,
                    #[trigger] node.children@[i],
                    path@,
                    i,
                    n0,
                    base_eff,
                    d,
                ),
            p ==> forall|i: int, k: NodeKeyView|
                0 <= i < slot && under(k.path, path@.push(i as u8)) ==> #[trigger] slot_counted(
                    &before,
                    &*cache,
                    base.children@[i],
                    node.children@[i],
                    path@,
                    i,
                    k,
                ),
        decreases 16 - slot,
    {
        let carry_here: Option<LeafNode> = match &carry {
            Some(l) => if l.key_hash().get_nibble(depth) == slot {
                Some(l.clone())
            } else {
                None
            },
            None => None,
        };
        let old_child = base.child(slot);
        let ghost cur = *cache;
        let ghost n1 = cache.nodes();
        proof {
            assert(slot_free(cache.live(), version, path@.push(slot))) by {
                assert forall|k: NodeKeyView| #[trigger] cache.live().contains_key(k)
                    implies !below(
                    k,
                    version,
                    path@.push(slot),
                ) by {
                    if below(k, version, path@.push(slot)) {
                        lemma_below_push(k, version, path@, slot, slot);
                    }
                }
            }
            assert(stale_free(cache.stale(), path@.push(slot), false)) by {
                assert forall|m: StaleNodeIndexView| #[trigger] cache.stale().contains(m)
                    implies !under(
                    m.node_key.path,
                    path@.push(slot),
                ) by {
                    if under(m.node_key.path, path@.push(slot)) {
                        lemma_under_push(m.node_key.path, path@, slot, slot);
                    }
                }
            }
            if p {
                lemma_nodes_extend(&before, &cur, path@, true);
                if inner {
                    lemma_frame(n0, n1, base_eff, path@);
                    assert(slot_wf(n1, base.children@[slot as int], path@, slot as int));
                } else {
                    assert(base.children@[slot as int] is None);
                    if carry_here is Some {
                        lemma_on_path_push(carry_here->Some_0@.key_hash, path@, slot);
                    }
                }
                assert(slot_premises(&cur, ops@, old_child, carry_here, path@, slot as int));
            }
        }
        let made = match apply_slot(cache, ops, idxs, old_child, carry_here, path, slot) {
            Ok(c) => c,
            Err(e) => {
                proof {
                    lemma_grew_slot(&before, &cur, &*cache, path@, slot);
                }
                return Err(e);
            },
        };
        let ghost children0 = node.children@;
        node.set_child(slot, made);
        proof {
            lemma_grew_slot(&before, &cur, &*cache, path@, slot);
            assert forall|k: NodeKeyView| #[trigger]
                cache.live().contains_key(k) && below(k, version, path@) implies k.path.len() > d
                && k.path[d] < slot + 1 by {
                if !cur.live().contains_key(k) {
                    lemma_below_push(k, version, path@, slot, slot);
                }
            }
            assert forall|m: StaleNodeIndexView| #[trigger]
                cache.stale().contains(m) && under(m.node_key.path, path@) && m.node_key.path.len()
                    > d implies m.node_key.path[d] < slot + 1 by {
                if !cur.stale().contains(m) {
                    lemma_under_push(m.node_key.path, path@, slot, slot);
                }
            }
            if p {
                let n2 = cache.nodes();
                let sb = slot_base(n1, old_child, carry_here, path@, slot as int);
                lemma_nodes_extend(&cur, &*cache, path@.push(slot), false);
                assert forall|i: int| 0 <= i < slot + 1 implies slot_good(
                    n2,
                    ops@,
                    #[trigger] node.children@[i],
                    path@,
                    i,
                    n0,
                    base_eff,
                    d,
                ) by {
                    if i < slot {
                        assert(node.children@[i] == children0[i]);
                        assert(slot_good(n1, ops@, children0[i], path@, i, n0, base_eff, d));
                        lemma_slot_frame(n1, n2, ops@, children0[i], path@, i, n0, base_eff, d);
                    } else {
                        assert(node.children@[i] == made);
                        assert(slot_good(n2, ops@, made, path@, slot as int, n1, sb, d + 1));
                        assert forall|k: KeyHash| #[trigger] on_path(k, path@.push(slot))
                            implies slot_lookup(
                            n2,
                            made,
                            path@,
                            slot as int,
                            k,
                        ) == applied(ops@, lookup_node(n0, base_eff, d, k), k) by {
                            lemma_on_path_push(k, path@, slot);
                            lemma_slot_base(
                                n0,
                                n1,
                                base,
                                carry,
                                inner,
                                old_child,
                                carry_here,
                                path@,
                                slot,
                                k,
                            );
                        }
                    }
                }
            }
        }
        proof {
            if p {
                let n2 = cache.nodes();
                assert forall|i: int, k: NodeKeyView|
                    0 <= i < slot + 1 && under(k.path, path@.push(i as u8))
                        implies #[trigger] slot_counted(
                    &before,
                    &*cache,
                    base.children@[i],
                    node.children@[i],
                    path@,
                    i,
                    k,
                ) by {
                    lemma_under_push(k.path, path@, i as u8, slot);
                    if i < slot {
                        assert(node.children@[i] == children0[i]);
                        assert(slot_counted(
                            &before,
                            &cur,
                            base.children@[i],
                            children0[i],
                            path@,
                            i,
                            k,
                        ));
                        assert(slot_good(n1, ops@, children0[i], path@, i, n0, base_eff, d));
                        lemma_slot_reach_frame(n1, n2, children0[i], path@, i, k);
                        lemma_other_slot(&cur, &*cache, path@, slot, k);
                    } else {
                        assert(node.children@[i] == made);
                        assert(slot_counted(&cur, &*cache, old_child, made, path@, slot as int, k));
                        if inner {
                            assert(slot_wf(n0, old_child, path@, slot as int));
                        }
                        lemma_slot_reach_frame(n0, n1, old_child, path@, slot as int, k);
                        lemma_this_slot(&before, &cur, path@, slot, k);
                    }
                }
            }
        }
        slot += 1;
    }
    let ghost cur = *cache;
    let ghost n1 = cache.nodes();
    proof {
        if p {
            assert forall|i: int| 0 <= i < 16 implies slot_wf(
                n1,
                #[trigger] node.children@[i],
                path@,
                i,
            ) by {
                assert(slot_good(n1, ops@, node.children@[i], path@, i, n0, base_eff, d));
            }
            assert(children_ok(n1, node, path@));
            assert(children_unmarked(cur.stale(), version, node, path@)) by {
                assert forall|i: int| 0 <= i < 16
                    implies ((#[trigger] node.children@[i]) matches Some(
                    c,
                ) ==> !cur.stale().contains(stale_mark(version, child_key(c, path@, i)))) by {
                    if let Some(c) = node.children@[i] {
                        let ck = child_key(c, path@, i);
                        assert(under(ck.path, path@.push(i as u8))) by {
                            assert(ck.path.subrange(0, ck.path.len() as int) =~= ck.path);
                        }
                        lemma_under_push(ck.path, path@, i as u8, i as u8);
                        assert(slot_counted(
                            &before,
                            &cur,
                            base.children@[i],
                            node.children@[i],
                            path@,
                            i,
                            ck,
                        ));
                    }
                }
            }
        }
    }
    let r = finish_node(cache, path, node);
    proof {
        assert(cache.nodes() == n1);
        if p {
            if r is Ok {
                let mv = opt_node(r->Ok_0);
                assert(finished_ok(n1, node, mv, path@));
                assert forall|k: NodeKeyView| #[trigger]
                    subtree_counted(&before, &*cache, base0, mv, path@, k) by {
                    assert(finish_counted(&cur, &*cache, node, mv, path@, k));
                    assert(reaches(n0, base0, path@, k) == reaches(n0, base_eff, path@, k));
                    if under(k.path, path@) && k.path.len() > d {
                        lemma_under_slot(k.path, path@);
                        let i = k.path[d] as int;
                        if i < 16 {
                            assert(slot_counted(
                                &before,
                                &cur,
                                base.children@[i],
                                node.children@[i],
                                path@,
                                i,
                                k,
                            ));
                            assert(slot_wf(n1, node.children@[i], path@, i));
                            if inner {
                                assert(slot_wf(n0, base.children@[i], path@, i));
                            }
                        }
                    }
                }
                assert forall|k: KeyHash| #[trigger] on_path(k, path@) implies lookup_node(
                    n1,
                    mv,
                    d,
                    k,
                ) == applied(ops@, lookup_node(n0, base0, d, k), k) by {
                    lemma_nibble_bound(k, d);
                    let i = k.nibble(d) as int;
                    lemma_on_path_push(k, path@, i as u8);
                    assert(slot_good(n1, ops@, node.children@[i], path@, i, n0, base_eff, d));
                    assert(on_path(k, path@.push(i as u8)));
                    assert(slot_lookup(n1, node.children@[i], path@, i, k) == applied(
                        ops@,
                        lookup_node(n0, base_eff, d, k),
                        k,
                    ));
                    assert(k.nibbles(d) == path@);
                    assert(lookup_node(n1, NodeView::Internal(node), d, k) == slot_lookup(
                        n1,
                        node.children@[i],
                        path@,
                        i,
                        k,
                    ));
                    assert(applied(ops@, lookup_node(n0, base_eff, d, k), k) == applied(
                        ops@,
                        lookup_node(n0, base0, d, k),
                        k,
                    ));
                }
            }
        }
    }
    r
}

/// A cache that grew below a path, and then at or below one of its slots,
/// grew below the path.
proof fn lemma_grew_slot<R: TreeReader>(
    before: &TreeCache<R>,
    cur: &TreeCache<R>,
    after: &TreeCache<R>,
    path: Seq<u8>,
    slot: u8,
)
    requires
        cache_grew(before, cur, path, true),
        cache_grew(cur, after, path.push(slot), false),
    ensures
        cache_grew(before, after, path, true),
{
    assert forall|k: NodeKeyView| #[trigger]
        after.live().contains_key(k) && !before.live().contains_key(k) implies below(
        k,
        before.version(),
        path,
    ) && k.path.len() > path.len() by {
        if !cur.live().contains_key(k) {
            lemma_below_push(k, before.version(), path, slot, slot);
        }
    }
    assert forall|m: StaleNodeIndexView| #[trigger]
        after.stale().contains(m) && !before.stale().contains(m) implies m.stale_since_version
        == before.version() && under(m.node_key.path, path) && m.node_key.path.len()
        > path.len() by {
        if !cur.stale().contains(m) {
            lemma_under_push(m.node_key.path, path, slot, slot);
        }
    }
}

/// What stood under a slot before holds, for a key on the way through the
/// slot, what the whole node held for it.
proof fn lemma_slot_base(
    n0: Map<NodeKeyView, NodeView>,
    n1: Map<NodeKeyView, NodeView>,
    base: InternalNode,
    carry: Option<LeafNode>,
    inner: bool,
    old_child: Option<Child>,
    carry_here: Option<LeafNode>,
    path: Seq<u8>,
    slot: u8,
    k: KeyHash,
)
    requires
        path.len() < 64,
        slot < 16,
        extends(n1, n0),
        on_path(k, path),
        k.nibble(path.len() as int) == slot,
        old_child == base.children@[slot as int],
        inner ==> carry is None && node_wf(n0, NodeView::Internal(base), path),
        !inner ==> old_child is None,
        carry_node(carry_here) == (if carry is Some && carry.unwrap()@.key_hash.nibble(
            path.len() as int,
        ) == slot {
            carry_node(carry)
        } else {
            NodeView::Null
        }),
    ensures
        lookup_node(
            n1,
            slot_base(n1, old_child, carry_here, path, slot as int),
            (path.len() + 1) as int,
            k,
        ) == lookup_node(
            n0,
            if inner {
                NodeView::Internal(base)
            } else {
                carry_node(carry)
            },
            path.len() as int,
            k,
        ),
{
    let d = path.len() as int;
    if inner {
        if let Some(c) = old_child {
            let ck = child_key(c, path, slot as int);
            assert(n0.contains_key(ck));
            assert(node_wf(n0, n0[ck], path.push(slot)));
            lemma_frame(n0, n1, n0[ck], path.push(slot));
            lemma_on_path_push(k, path, slot);
            assert(path.push(slot).len() == d + 1);
            assert(k.nibbles(d) == path);
        }
    }
}

/// What the marks and writes of the work on a slot come to, from those of
/// the work below it.
proof fn lemma_slot_marks<R: TreeReader>(
    before: &TreeCache<R>,
    mid: &TreeCache<R>,
    after: &TreeCache<R>,
    old_child: Option<Child>,
    path: Seq<u8>,
    slot: u8,
    k: NodeKeyView,
)
    requires
        path.len() < 64,
        slot < 16,
        version_unused(before.store(), before.version()),
        live_at(before.live(), before.version()),
        before.frozen() == Map::<NodeKeyView, NodeView>::empty(),
        slot_free(before.live(), before.version(), path.push(slot)),
        stale_free(before.stale(), path.push(slot), false),
        slot_wf(before.nodes(), old_child, path, slot as int),
        mid.same_base(before),
        mid.live() == before.live(),
        mid.stale() == (if old_child is Some {
            before.stale().insert(
                stale_mark(before.version(), child_key(old_child->Some_0, path, slot as int)),
            )
        } else {
            before.stale()
        }),
        cache_grew(mid, after, path.push(slot), true),
    ensures
        old_child matches Some(c) ==> child_key(c, path, slot as int).version != before.version(),
        new_live(before.live(), after.live(), k) == new_live(mid.live(), after.live(), k),
        new_stale(before.stale(), after.stale(), before.version(), k) == ((old_child matches Some(c)
            && k == child_key(c, path, slot as int)) || new_stale(
            mid.stale(),
            after.stale(),
            before.version(),
            k,
        )),
        old_child matches Some(c) ==> !new_stale(
            mid.stale(),
            after.stale(),
            before.version(),
            child_key(c, path, slot as int),
        ) && !new_live(mid.live(), after.live(), child_key(c, path, slot as int)),
        !new_stale(
            mid.stale(),
            after.stale(),
            before.version(),
            NodeKeyView { version: before.version(), path: path.push(slot) },
        ),
        !after.live().contains_key(NodeKeyView { version: before.version(), path: path.push(slot) }),
{
    let v = before.version();
    let nk = NodeKeyView { version: v, path: path.push(slot) };
    assert(under(nk.path, path.push(slot))) by {
        assert(nk.path.subrange(0, nk.path.len() as int) =~= nk.path);
    }
    assert(below(nk, v, path.push(slot)));
    if let Some(c) = old_child {
        let ck = child_key(c, path, slot as int);
        assert(ck.path == path.push(slot));
        assert(before.written() =~= before.live());
        assert(before.nodes().contains_key(ck));
        if ck.version == v {
            assert(below(ck, v, path.push(slot)));
            assert(before.store().contains_key(ck));
        }
        assert(!before.stale().contains(stale_mark(v, ck)));
        if k != ck {
            assert(stale_mark(v, k) != stale_mark(v, ck));
        }
    }
}

/// The work on one slot writes and marks nothing at or below another.
proof fn lemma_other_slot<R: TreeReader>(
    cur: &TreeCache<R>,
    after: &TreeCache<R>,
    path: Seq<u8>,
    slot: u8,
    k: NodeKeyView,
)
    requires
        cache_grew(cur, after, path.push(slot), false),
        k.path.len() > path.len(),
        k.path[path.len() as int] != slot,
    ensures
        after.live().contains_key(k) == cur.live().contains_key(k),
        after.stale().contains(stale_mark(cur.version(), k)) == cur.stale().contains(
            stale_mark(cur.version(), k),
        ),
{
    if under(k.path, path.push(slot)) {
        lemma_under_push(k.path, path, slot, slot);
    }
}

/// Before the work on a slot, nothing was written or marked at or below
/// it.
proof fn lemma_this_slot<R: TreeReader>(
    before: &TreeCache<R>,
    cur: &TreeCache<R>,
    path: Seq<u8>,
    slot: u8,
    k: NodeKeyView,
)
    requires
        cache_grew(before, cur, path, true),
        under(k.path, path.push(slot)),
        forall|x: NodeKeyView| #[trigger]
            cur.live().contains_key(x) && below(x, before.version(), path) ==> x.path.len()
                > path.len() && x.path[path.len() as int] < slot,
        forall|m: StaleNodeIndexView| #[trigger]
            cur.stale().contains(m) && under(m.node_key.path, path) && m.node_key.path.len()
                > path.len() ==> m.node_key.path[path.len() as int] < slot,
    ensures
        cur.live().contains_key(k) == before.live().contains_key(k),
        cur.stale().contains(stale_mark(before.version(), k)) == before.stale().contains(
            stale_mark(before.version(), k),
        ),
{
    lemma_under_push(k.path, path, slot, slot);
    if cur.live().contains_key(k) && !before.live().contains_key(k) {
        assert(below(k, before.version(), path));
    }
    let m = stale_mark(before.version(), k);
    if cur.stale().contains(m) && !before.stale().contains(m) {
        assert(m.node_key.path[path.len() as int] < slot);
    }
}

} // verus!
