//! Proofs of the tree in the ICS-23 format.
use crate::hash::{
    key_hash_of, lemma_key_hash_of, lemma_lt_asymmetric, sha256, spec_leaf_hash,
    INTERNAL_DOMAIN_SEPARATOR, KeyHash, LEAF_DOMAIN_SEPARATOR, SPARSE_MERKLE_PLACEHOLDER_HASH,
};
use crate::laws::{
    committed, last_version, lemma_proof_determined, lemma_pruning_keeps_tree, pruned_store,
    step_ok, store_after, written_store,
};
use crate::model::{lemma_root_determined, lookup, tree_wf};
use crate::node_type::{hash_views, root_key, NodeKeyView, NodeView};
use crate::proofs::{fold_from, ExclusionProof, RootHash, SparseMerkleProof};
use crate::storage::{HasPreimage, JmtError, TreeReader, UpdateBatch};
use crate::tree::{
    exclusion_ok, lacks_root, nearest, neighbor_ok, neighbors_ok, on_side, put_ok, root_missing,
    tree_proof, JellyfishMerkleTree,
};
use crate::tree_cache::start_root;
use crate::update::{applied, Op};
use crate::types::Version;
use vstd::prelude::*;

verus! {

/// The hash operations that the proofs of the tree use: none, which leaves
/// the data as it is, and SHA-256.
#[derive(Clone, Copy, Debug, PartialEq, Eq)]
pub enum HashOp {
    NoHash,
    Sha256,
}

impl HashOp {
    /// The number of the operation in the ICS-23 format.
    pub open spec fn code(self) -> i32 {
        match self {
            HashOp::NoHash => 0,
            HashOp::Sha256 => 1,
        }
    }
}

/// The length operation that the proofs of the tree use: a key or a value
/// enters the hash of a leaf without its length.
#[derive(Clone, Copy, Debug, PartialEq, Eq)]
pub enum LengthOp {
    NoPrefix,
}

impl LengthOp {
    /// The number of the operation in the ICS-23 format.
    pub open spec fn code(self) -> i32 {
        0
    }
}

/// Converts a hash operation to its number with `i32::from` on the
/// `HashOp` of the ics23 crate. Trusted: `NoHash` has the number 0 and
/// `Sha256` the number 1.
#[verifier::external_body]
fn hash_op_code(op: HashOp) -> (c: i32)
    ensures
        c == op.code(),
{
    match op {
        HashOp::NoHash => i32::from(ics23::HashOp::NoHash),
        HashOp::Sha256 => i32::from(ics23::HashOp::Sha256),
    }
}

/// Converts a length operation to its number with `i32::from` on the
/// `LengthOp` of the ics23 crate. Trusted: `NoPrefix` has the number 0.
#[verifier::external_body]
fn length_op_code(op: LengthOp) -> (c: i32)
    ensures
        c == op.code(),
{
    match op {
        LengthOp::NoPrefix => i32::from(ics23::LengthOp::NoPrefix),
    }
}

/// What hashing with the operation of the given number gives: the SHA-256
/// digest for the number of `Sha256`, the data itself otherwise.
pub open spec fn spec_do_hash(code: i32, data: Seq<u8>) -> Seq<u8> {
    if code == HashOp::Sha256.code() {
        sha256(data)
    } else {
        data
    }
}

/// What an inner step of a proof stands for.
pub ghost struct InnerOpView {
    pub hash: i32,
    pub prefix: Seq<u8>,
    pub suffix: Seq<u8>,
}

/// One inner step of a proof: the hash of a node from that of one child,
/// with what stands before and after it in the hash input.
#[derive(Clone, Debug, PartialEq, Eq)]
pub struct InnerOp {
    pub hash: i32,
    pub prefix: Vec<u8>,
    pub suffix: Vec<u8>,
}

impl View for InnerOp {
    type V = InnerOpView;

    open spec fn view(&self) -> InnerOpView {
        InnerOpView { hash: self.hash, prefix: self.prefix@, suffix: self.suffix@ }
    }
}

/// What the leaf step of a proof stands for.
pub ghost struct LeafOpView {
    pub hash: i32,
    pub prehash_key: i32,
    pub prehash_value: i32,
    pub length: i32,
    pub prefix: Seq<u8>,
}

/// The leaf step of a proof: how the hash of a leaf is made from its key
/// and value.
#[derive(Clone, Debug, PartialEq, Eq)]
pub struct LeafOp {
    pub hash: i32,
    pub prehash_key: i32,
    pub prehash_value: i32,
    pub length: i32,
    pub prefix: Vec<u8>,
}

impl View for LeafOp {
    type V = LeafOpView;

    open spec fn view(&self) -> LeafOpView {
        LeafOpView {
            hash: self.hash,
            prehash_key: self.prehash_key,
            prehash_value: self.prehash_value,
            length: self.length,
            prefix: self.prefix@,
        }
    }
}

/// The view of each step in a list of inner steps.
pub open spec fn path_view(path: Seq<InnerOp>) -> Seq<InnerOpView> {
    Seq::new(path.len(), |i: int| path[i]@)
}

/// What a proof of existence stands for.
pub ghost struct ExistenceProofView {
    pub key: Seq<u8>,
    pub value: Seq<u8>,
    pub leaf: Option<LeafOpView>,
    pub path: Seq<InnerOpView>,
}

/// A proof that a key has a value: the leaf step, and the inner steps from
/// the leaf up to the root.
#[derive(Clone, Debug, PartialEq, Eq)]
pub struct ExistenceProof {
    pub key: Vec<u8>,
    pub value: Vec<u8>,
    pub leaf: Option<LeafOp>,
    pub path: Vec<InnerOp>,
}

impl View for ExistenceProof {
    type V = ExistenceProofView;

    open spec fn view(&self) -> ExistenceProofView {
        ExistenceProofView {
            key: self.key@,
            value: self.value@,
            leaf: match self.leaf {
                Some(l) => Some(l@),
                None => None,
            },
            path: path_view(self.path@),
        }
    }
}

/// A proof that a key has no value: the proofs of the leaves next to it.
#[derive(Clone, Debug, PartialEq, Eq)]
pub struct NonExistenceProof {
    pub key: Vec<u8>,
    pub left: Option<ExistenceProof>,
    pub right: Option<ExistenceProof>,
}

/// The two kinds of proof.
#[derive(Clone, Debug, PartialEq, Eq)]
pub enum CommitmentProofKind {
    Exist(ExistenceProof),
    Nonexist(NonExistenceProof),
}

/// A proof for one key.
#[derive(Clone, Debug, PartialEq, Eq)]
pub struct CommitmentProof {
    pub proof: Option<CommitmentProofKind>,
}

/// What a proof must look like above the leaf.
#[derive(Clone, Debug, PartialEq, Eq)]
pub struct InnerSpec {
    pub child_order: Vec<i32>,
    pub child_size: i32,
    pub min_prefix_length: i32,
    pub max_prefix_length: i32,
    pub empty_child: Vec<u8>,
    pub hash: i32,
}

/// What a proof of the tree must look like. A key is hashed with
/// `prehash_compared_key`, and a value with `prehash_compared_value`,
/// before it is compared with another and before it enters the leaf step.
#[derive(Clone, Debug, PartialEq, Eq)]
pub struct ProofSpec {
    pub prehash_compared_key: i32,
    pub prehash_compared_value: i32,
    pub leaf_spec: Option<LeafOp>,
    pub inner_spec: Option<InnerSpec>,
    pub min_depth: i32,
    pub max_depth: i32,
}

/// The leaf step of every proof of the tree: the key enters as it is
/// compared, the value by its SHA-256 digest, and both are joined behind
/// the leaf separator without lengths.
pub open spec fn spec_leaf_op() -> LeafOpView {
    LeafOpView {
        hash: HashOp::Sha256.code(),
        prehash_key: HashOp::NoHash.code(),
        prehash_value: HashOp::Sha256.code(),
        length: LengthOp::NoPrefix.code(),
        prefix: LEAF_DOMAIN_SEPARATOR@,
    }
}

/// The number of the hash by which the keys of the tree are compared:
/// SHA-256.
pub open spec fn spec_compared_key() -> i32 {
    HashOp::Sha256.code()
}

/// The number of the hash by which the values of the tree are compared:
/// none.
pub open spec fn spec_compared_value() -> i32 {
    HashOp::NoHash.code()
}

/// The one hash that does what hashing with `first` and then with `second`
/// does, where one of the two is no hash; there is none where both hash.
pub open spec fn merged_hash(first: i32, second: i32) -> Option<i32> {
    if first == HashOp::NoHash.code() {
        Some(second)
    } else if second == HashOp::NoHash.code() {
        Some(first)
    } else {
        None
    }
}

/// The leaf step that hashes key and value by itself as `leaf` does after
/// the key was hashed with `compared_key` and the value with
/// `compared_value`; there is none where a key or a value is hashed twice.
pub open spec fn merged_leaf_op(leaf: LeafOpView, compared_key: i32, compared_value: i32) -> Option<
    LeafOpView,
> {
    match (
        merged_hash(compared_key, leaf.prehash_key),
        merged_hash(compared_value, leaf.prehash_value),
    ) {
        (Some(k), Some(v)) => Some(
            LeafOpView {
                hash: leaf.hash,
                prehash_key: k,
                prehash_value: v,
                length: leaf.length,
                prefix: leaf.prefix,
            },
        ),
        _ => None,
    }
}

/// The merged leaf step gives, for a key and a value as they are, the hash
/// that the leaf step gives for them as they are compared.
pub proof fn lemma_merged_leaf_op(
    leaf: LeafOpView,
    compared_key: i32,
    compared_value: i32,
    key: Seq<u8>,
    value: Seq<u8>,
)
    requires
        merged_leaf_op(leaf, compared_key, compared_value) is Some,
    ensures
        leaf_op_hash(merged_leaf_op(leaf, compared_key, compared_value).unwrap(), key, value)
            == leaf_op_hash(
            leaf,
            spec_do_hash(compared_key, key),
            spec_do_hash(compared_value, value),
        ),
{
}

impl ProofSpec {
    /// Whether keys are hashed before they are compared.
    pub fn compares_hashed_keys(&self) -> (r: bool)
        ensures
            r == (self.prehash_compared_key != HashOp::NoHash.code()),
    {
        self.prehash_compared_key != hash_op_code(HashOp::NoHash)
    }

    /// The leaf step that hashes key and value by itself as `leaf` does
    /// after they were hashed for comparison; there is none where a key or
    /// a value is hashed twice.
    pub fn merged_leaf_op(&self, leaf: &LeafOp) -> (r: Option<LeafOp>)
        ensures
            match r {
                Some(m) => merged_leaf_op(
                    leaf@,
                    self.prehash_compared_key,
                    self.prehash_compared_value,
                ) == Some(m@),
                None => merged_leaf_op(
                    leaf@,
                    self.prehash_compared_key,
                    self.prehash_compared_value,
                ) is None,
            },
    {
        let none = hash_op_code(HashOp::NoHash);
        let prehash_key = if self.prehash_compared_key == none {
            leaf.prehash_key
        } else if leaf.prehash_key == none {
            self.prehash_compared_key
        } else {
            return None;
        };
        let prehash_value = if self.prehash_compared_value == none {
            leaf.prehash_value
        } else if leaf.prehash_value == none {
            self.prehash_compared_value
        } else {
            return None;
        };
        let mut prefix: Vec<u8> = Vec::new();
        prefix.extend_from_slice(leaf.prefix.as_slice());
        assert(prefix@ =~= leaf.prefix@);
        Some(LeafOp { hash: leaf.hash, prehash_key, prehash_value, length: leaf.length, prefix })
    }
}

/// The inner step beside `sibling`: where `bit` is set the node below is the
/// right child and the sibling stands before it, else it stands after it.
pub open spec fn spec_inner_op(bit: bool, sibling: Seq<u8>) -> InnerOpView {
    if bit {
        InnerOpView {
            hash: HashOp::Sha256.code(),
            prefix: INTERNAL_DOMAIN_SEPARATOR@ + sibling,
            suffix: Seq::empty(),
        }
    } else {
        InnerOpView {
            hash: HashOp::Sha256.code(),
            prefix: INTERNAL_DOMAIN_SEPARATOR@,
            suffix: sibling,
        }
    }
}

/// The proof of existence for `key` with `value`, from the hashes beside
/// the way to `key_hash`, the deepest first: step `j` goes by bit
/// `siblings.len() - 1 - j` of the key hash.
pub open spec fn spec_existence_proof(
    key: Seq<u8>,
    value: Seq<u8>,
    siblings: Seq<Seq<u8>>,
    key_hash: KeyHash,
) -> ExistenceProofView {
    ExistenceProofView {
        key,
        value,
        leaf: Some(spec_leaf_op()),
        path: Seq::new(
            siblings.len(),
            |j: int| spec_inner_op(key_hash.bit(siblings.len() - 1 - j), siblings[j]),
        ),
    }
}

/// The hash that the inner steps `path` give from the hash `h` below them.
pub open spec fn inner_ops_root(h: Seq<u8>, path: Seq<InnerOpView>) -> Seq<u8>
    decreases path.len(),
{
    if path.len() == 0 {
        h
    } else {
        let op = path.last();
        spec_do_hash(op.hash, op.prefix + inner_ops_root(h, path.drop_last()) + op.suffix)
    }
}

/// The hash that the leaf step gives for a key and a value.
pub open spec fn leaf_op_hash(leaf: LeafOpView, key: Seq<u8>, value: Seq<u8>) -> Seq<u8> {
    spec_do_hash(
        leaf.hash,
        leaf.prefix + spec_do_hash(leaf.prehash_key, key) + spec_do_hash(leaf.prehash_value, value),
    )
}

/// The root hash that a proof of existence gives under the description of
/// the proofs of the tree: the key and the value that it names enter its
/// leaf step as they are compared, the key by its SHA-256 digest and the
/// value as it is.
pub open spec fn existence_root(p: ExistenceProofView) -> Seq<u8> {
    inner_ops_root(
        leaf_op_hash(
            p.leaf.unwrap(),
            spec_do_hash(spec_compared_key(), p.key),
            spec_do_hash(spec_compared_value(), p.value),
        ),
        p.path,
    )
}

/// Whether an inner step fits the description of the proofs of the tree: it
/// hashes with SHA-256; before the hash from below stands the internal
/// separator, alone or with one hash of 32 bytes behind it; and after the
/// hash from below stands one hash of 32 bytes in the first case, and
/// nothing in the second.
pub open spec fn step_fits(op: InnerOpView) -> bool {
    &&& op.hash == HashOp::Sha256.code()
    &&& op.prefix.len() >= 16
    &&& op.prefix.subrange(0, 16) == INTERNAL_DOMAIN_SEPARATOR@
    &&& (op.prefix.len() == 16 && op.suffix.len() == 32) || (op.prefix.len() == 48
        && op.suffix.len() == 0)
}

/// Whether every inner step of a proof fits the description of the proofs
/// of the tree.
pub open spec fn steps_fit(path: Seq<InnerOpView>) -> bool {
    forall|j: int| 0 <= j < path.len() ==> step_fits(#[trigger] path[j])
}

/// Whether a proof of existence is one that a verifier of the ICS-23
/// format takes as showing that `key` has `value` under `root`: key and
/// value are not empty, the proof names them, its steps fit the
/// description of the proofs of the tree, and it gives `root`.
pub open spec fn membership_accepted(
    p: ExistenceProofView,
    root: Seq<u8>,
    key: Seq<u8>,
    value: Seq<u8>,
) -> bool {
    key.len() > 0 && value.len() > 0 && steps_fit(p.path) && shows_membership(p, root, key, value)
}

/// Whether a proof of existence shows that `key` has `value` under `root`.
pub open spec fn shows_membership(
    p: ExistenceProofView,
    root: Seq<u8>,
    key: Seq<u8>,
    value: Seq<u8>,
) -> bool {
    p.leaf == Some(spec_leaf_op()) && p.key == key && p.value == value && existence_root(p) == root
}

/// The proof of existence made from the hashes beside the way to a key
/// gives the root hash that those hashes give for the leaf of that key.
pub proof fn lemma_existence_root(
    key: Seq<u8>,
    value: Seq<u8>,
    siblings: Seq<Seq<u8>>,
    key_hash: KeyHash,
)
    requires
        key_hash.0@ == sha256(key),
    ensures
        existence_root(spec_existence_proof(key, value, siblings, key_hash)) == fold_from(
            spec_leaf_hash(key_hash.0@, sha256(value)),
            siblings,
            key_hash,
            0,
        ),
{
    let p = spec_existence_proof(key, value, siblings, key_hash);
    let h = spec_leaf_hash(key_hash.0@, sha256(value));
    assert(leaf_op_hash(spec_leaf_op(), sha256(key), value) == h);
    lemma_inner_ops_fold(h, siblings, key_hash, siblings.len() as int);
    assert(p.path.take(siblings.len() as int) =~= p.path);
    assert(siblings.take(siblings.len() as int) =~= siblings);
}

/// The first `m` inner steps give what folding over the first `m` hashes
/// gives.
proof fn lemma_inner_ops_fold(h: Seq<u8>, siblings: Seq<Seq<u8>>, key_hash: KeyHash, m: int)
    requires
        0 <= m <= siblings.len(),
    ensures
        inner_ops_root(h, spec_existence_proof(Seq::empty(), Seq::empty(), siblings, key_hash).path.take(m))
            == fold_from(h, siblings.take(m), key_hash, siblings.len() - m),
    decreases m,
{
    let path = spec_existence_proof(Seq::empty(), Seq::empty(), siblings, key_hash).path;
    if m > 0 {
        lemma_inner_ops_fold(h, siblings, key_hash, m - 1);
        assert(path.take(m).drop_last() =~= path.take(m - 1));
        assert(siblings.take(m).drop_last() =~= siblings.take(m - 1));
        assert(path.take(m).last() == path[m - 1]);
        assert(siblings.take(m).last() == siblings[m - 1]);
        let op = path[m - 1];
        let below = fold_from(h, siblings.take(m - 1), key_hash, siblings.len() - m + 1);
        if key_hash.bit(siblings.len() - m) {
            assert(op.prefix + below + op.suffix =~= INTERNAL_DOMAIN_SEPARATOR@ + siblings[m - 1]
                + below);
        } else {
            assert(op.prefix + below + op.suffix =~= INTERNAL_DOMAIN_SEPARATOR@ + below
                + siblings[m - 1]);
        }
    }
}

/// The description of the proofs of the tree: keys are compared by their
/// SHA-256 digests and values as they are; the leaf step; two children to a
/// node with the left one first, 32 bytes to a child, the internal
/// separator as the only prefix, and the placeholder for an empty child.
pub fn ics23_spec() -> (r: ProofSpec)
    ensures
        r.leaf_spec matches Some(l) && l@ == spec_leaf_op(),
        r.inner_spec matches Some(i) && i.hash == HashOp::Sha256.code() && i.child_order@ == seq![
            0i32,
            1i32,
        ] && i.min_prefix_length == 16 && i.max_prefix_length == 16 && i.child_size == 32
            && i.empty_child@ == SPARSE_MERKLE_PLACEHOLDER_HASH@,
        r.prehash_compared_key == spec_compared_key(),
        r.prehash_compared_value == spec_compared_value(),
        r.min_depth == 0,
        r.max_depth == 64,
{
    let mut prefix: Vec<u8> = Vec::new();
    prefix.extend_from_slice(LEAF_DOMAIN_SEPARATOR.as_slice());
    assert(prefix@ =~= LEAF_DOMAIN_SEPARATOR@);
    let mut empty_child: Vec<u8> = Vec::new();
    empty_child.extend_from_slice(SPARSE_MERKLE_PLACEHOLDER_HASH.as_slice());
    assert(empty_child@ =~= SPARSE_MERKLE_PLACEHOLDER_HASH@);
    let mut child_order: Vec<i32> = Vec::new();
    child_order.push(0);
    child_order.push(1);
    assert(child_order@ =~= seq![0i32, 1i32]);
    ProofSpec {
        prehash_compared_key: hash_op_code(HashOp::Sha256),
        prehash_compared_value: hash_op_code(HashOp::NoHash),
        leaf_spec: Some(
            LeafOp {
                hash: hash_op_code(HashOp::Sha256),
                prehash_key: hash_op_code(HashOp::NoHash),
                prehash_value: hash_op_code(HashOp::Sha256),
                length: length_op_code(LengthOp::NoPrefix),
                prefix,
            },
        ),
        inner_spec: Some(
            InnerSpec {
                hash: hash_op_code(HashOp::Sha256),
                child_order,
                min_prefix_length: 16,
                max_prefix_length: 16,
                child_size: 32,
                empty_child,
            },
        ),
        min_depth: 0,
        max_depth: 64,
    }
}

/// Makes the proof of existence for `key` with `value` from a proof of the
/// tree for the hash of `key`.
pub fn sparse_merkle_proof_to_ics23_existence_proof(
    key: Vec<u8>,
    value: Vec<u8>,
    proof: &SparseMerkleProof,
) -> (r: ExistenceProof)
    requires
        proof.siblings@.len() <= 256,
    ensures
        r@ == spec_existence_proof(
            key@,
            value@,
            hash_views(proof.siblings@),
            key_hash_of(key@),
        ),
        steps_fit(r@.path),
{
    let key_hash = KeyHash::with_sha256(key.as_slice());
    let n = proof.siblings.len();
    let ghost siblings = hash_views(proof.siblings@);
    let ghost want = spec_existence_proof(key@, value@, siblings, key_hash);
    let mut path: Vec<InnerOp> = Vec::new();
    let mut j: usize = 0;
    while j < n
        invariant
            j <= n <= 256,
            n == proof.siblings@.len(),
            siblings == hash_views(proof.siblings@),
            want == spec_existence_proof(key@, value@, siblings, key_hash),
            path@.len() == j,
            forall|i: int| 0 <= i < j ==> (#[trigger] path@[i])@ == want.path[i],
            forall|i: int| 0 <= i < j ==> step_fits((#[trigger] path@[i])@),
        decreases n - j,
    {
        let bit = key_hash.get_bit(n - 1 - j);
        let sibling = proof.siblings[j];
        let mut prefix: Vec<u8> = Vec::new();
        prefix.extend_from_slice(INTERNAL_DOMAIN_SEPARATOR.as_slice());
        let mut suffix: Vec<u8> = Vec::new();
        if bit {
            prefix.extend_from_slice(sibling.as_slice());
            assert(prefix@ =~= INTERNAL_DOMAIN_SEPARATOR@ + sibling@);
        } else {
            suffix.extend_from_slice(sibling.as_slice());
            assert(prefix@ =~= INTERNAL_DOMAIN_SEPARATOR@);
            assert(suffix@ =~= sibling@);
        }
        let op = InnerOp { hash: hash_op_code(HashOp::Sha256), prefix, suffix };
        assert(op@ == want.path[j as int]);
        assert(op@.prefix.subrange(0, 16) =~= INTERNAL_DOMAIN_SEPARATOR@);
        assert(step_fits(op@));
        path.push(op);
        j += 1;
    }
    let mut prefix: Vec<u8> = Vec::new();
    prefix.extend_from_slice(LEAF_DOMAIN_SEPARATOR.as_slice());
    assert(prefix@ =~= LEAF_DOMAIN_SEPARATOR@);
    let leaf = LeafOp {
        hash: hash_op_code(HashOp::Sha256),
        prehash_key: hash_op_code(HashOp::NoHash),
        prehash_value: hash_op_code(HashOp::Sha256),
        length: length_op_code(LengthOp::NoPrefix),
        prefix,
    };
    let r = ExistenceProof { key, value, leaf: Some(leaf), path };
    assert(r@.path =~= want.path);
    assert forall|i: int| 0 <= i < r@.path.len() implies step_fits(#[trigger] r@.path[i]) by {
        assert(r@.path[i] == path@[i]@);
    }
    r
}

/// Whether `e` is the proof of existence, with the key that the store knows
/// for its hash, of the leaf of `proof`, with the value that the tree of
/// `version` holds for it.
pub open spec fn neighbor_existence<R: TreeReader + HasPreimage>(
    reader: &R,
    version: Version,
    proof: SparseMerkleProof,
    e: ExistenceProofView,
) -> bool {
    let key_hash = proof.leaf.unwrap().key_hash;
    let found = lookup(reader.nodes(), root_key(version), key_hash);
    &&& reader.preimages().contains_key(key_hash)
    &&& sha256(reader.preimages()[key_hash]) == key_hash.0@
    &&& found is Some
    &&& e == spec_existence_proof(
        reader.preimages()[key_hash],
        found.unwrap(),
        hash_views(proof.siblings@),
        key_hash,
    )
    &&& steps_fit(e.path)
}

/// What a failure says where the key or the value of the leaf of a proof
/// was looked up.
pub open spec fn neighbor_failed<R: TreeReader + HasPreimage>(
    reader: &R,
    version: Version,
    proof: SparseMerkleProof,
    e: JmtError,
) -> bool {
    let key_hash = proof.leaf.unwrap().key_hash;
    match e {
        JmtError::MissingPreimage => !reader.preimages().contains_key(key_hash),
        JmtError::MissingValue => lookup(reader.nodes(), root_key(version), key_hash) is None,
        JmtError::MissingNode(k) => !reader.nodes().contains_key(k@),
        JmtError::Reader => !reader.reliable() || !reader.preimage_reliable(),
        JmtError::InvalidOperation => false,
    }
}

/// Whether the store answers every read, of a node and of a key, and the
/// tree of `version` in it is well formed.
pub open spec fn reads_sound<R: TreeReader + HasPreimage>(reader: &R, version: Version) -> bool {
    &&& reader.reliable()
    &&& reader.preimage_reliable()
    &&& tree_wf(reader.nodes(), root_key(version))
}

/// Whether `r` is the failure `e`, or a success where `e` is nothing.
pub open spec fn fails_with<T>(r: Result<T, JmtError>, e: Option<JmtError>) -> bool {
    match e {
        Some(e) => r matches Err(x) && x == e,
        None => r is Ok,
    }
}

/// The failure of making a proof of existence for the leaf of `proof`
/// where the reads are sound, nothing where it is made: the key is missing
/// where the store does not know it, the value where the leaf has none in
/// the tree of `version`. Where both are missing, `key_first` says which
/// is reported.
pub open spec fn neighbor_error<R: TreeReader + HasPreimage>(
    reader: &R,
    version: Version,
    proof: SparseMerkleProof,
    key_first: bool,
) -> Option<JmtError> {
    let key_hash = proof.leaf.unwrap().key_hash;
    let known = reader.preimages().contains_key(key_hash);
    let valued = lookup(reader.nodes(), root_key(version), key_hash) is Some;
    if known && valued {
        None
    } else if !known && (key_first || valued) {
        Some(JmtError::MissingPreimage)
    } else {
        Some(JmtError::MissingValue)
    }
}

/// The failure of making a proof of non-existence from `exclusion` where
/// the reads are sound, nothing where it is made. A single leaf above the
/// key has its key looked up before its value, any other leaf its value
/// before its key; of two leaves, the one above the key comes first.
pub open spec fn nonexistence_error<R: TreeReader + HasPreimage>(
    reader: &R,
    version: Version,
    exclusion: ExclusionProof,
) -> Option<JmtError> {
    match exclusion {
        ExclusionProof::Leftmost { leftmost_right_proof } => neighbor_error(
            reader,
            version,
            leftmost_right_proof,
            true,
        ),
        ExclusionProof::Middle { leftmost_right_proof, rightmost_left_proof } => {
            let first = neighbor_error(reader, version, leftmost_right_proof, false);
            if first is Some {
                first
            } else {
                neighbor_error(reader, version, rightmost_left_proof, false)
            }
        },
        ExclusionProof::Rightmost { rightmost_left_proof } => neighbor_error(
            reader,
            version,
            rightmost_left_proof,
            false,
        ),
    }
}

/// Whether a proof of the tree has a leaf and at most 256 hashes.
pub open spec fn has_leaf(proof: SparseMerkleProof) -> bool {
    proof.leaf is Some && proof.siblings@.len() <= 256
}

/// Whether each proof of `exclusion` has a leaf and at most 256 hashes.
pub open spec fn exclusion_has_leaves(exclusion: ExclusionProof) -> bool {
    match exclusion {
        ExclusionProof::Leftmost { leftmost_right_proof } => has_leaf(leftmost_right_proof),
        ExclusionProof::Middle { leftmost_right_proof, rightmost_left_proof } => has_leaf(
            leftmost_right_proof,
        ) && has_leaf(rightmost_left_proof),
        ExclusionProof::Rightmost { rightmost_left_proof } => has_leaf(rightmost_left_proof),
    }
}

/// Whether `p` is the proof of non-existence for `key` made from `exclusion`:
/// the leaf above the key stands on the right and the leaf below it on the
/// left, each as a proof of existence; between two leaves the proof names
/// the key itself, else its hash.
pub open spec fn nonexistence_ok<R: TreeReader + HasPreimage>(
    reader: &R,
    key: Seq<u8>,
    version: Version,
    exclusion: ExclusionProof,
    p: NonExistenceProof,
) -> bool {
    match exclusion {
        ExclusionProof::Leftmost { leftmost_right_proof } => {
            &&& p.key@ == key_hash_of(key).0@
            &&& p.left is None
            &&& p.right is Some
            &&& neighbor_existence(reader, version, leftmost_right_proof, p.right.unwrap()@)
        },
        ExclusionProof::Middle { leftmost_right_proof, rightmost_left_proof } => {
            &&& p.key@ == key
            &&& p.left is Some
            &&& neighbor_existence(reader, version, rightmost_left_proof, p.left.unwrap()@)
            &&& p.right is Some
            &&& neighbor_existence(reader, version, leftmost_right_proof, p.right.unwrap()@)
        },
        ExclusionProof::Rightmost { rightmost_left_proof } => {
            &&& p.key@ == key_hash_of(key).0@
            &&& p.right is None
            &&& p.left is Some
            &&& neighbor_existence(reader, version, rightmost_left_proof, p.left.unwrap()@)
        },
    }
}

/// What a failure says where a proof of non-existence was made from `exclusion`.
pub open spec fn nonexistence_failed<R: TreeReader + HasPreimage>(
    reader: &R,
    version: Version,
    exclusion: ExclusionProof,
    e: JmtError,
) -> bool {
    match exclusion {
        ExclusionProof::Leftmost { leftmost_right_proof } => neighbor_failed(
            reader,
            version,
            leftmost_right_proof,
            e,
        ),
        ExclusionProof::Middle { leftmost_right_proof, rightmost_left_proof } => neighbor_failed(
            reader,
            version,
            leftmost_right_proof,
            e,
        ) || neighbor_failed(reader, version, rightmost_left_proof, e),
        ExclusionProof::Rightmost { rightmost_left_proof } => neighbor_failed(
            reader,
            version,
            rightmost_left_proof,
            e,
        ),
    }
}

/// Whether a proof of existence shows a leaf of the tree of `version` on
/// one side of `key_hash`: it names the key that the store knows for the
/// key hash of the leaf, which sorts before `key_hash` where `lower` is set
/// and after it otherwise; it holds the value of that key; its steps are
/// made from the proof of the tree for the leaf; and it gives the hash of
/// the root where the tree is well formed.
pub open spec fn shows_neighbor(
    nodes: Map<NodeKeyView, NodeView>,
    preimages: Map<KeyHash, Seq<u8>>,
    version: Version,
    key_hash: KeyHash,
    e: ExistenceProofView,
    lower: bool,
) -> bool {
    let neighbor = key_hash_of(e.key);
    &&& neighbor.0@ == sha256(e.key)
    &&& preimages.contains_key(neighbor)
    &&& e.key == preimages[neighbor]
    &&& if lower {
        neighbor.spec_lt(key_hash)
    } else {
        key_hash.spec_lt(neighbor)
    }
    &&& lookup(nodes, root_key(version), neighbor) == Some(e.value)
    &&& e == spec_existence_proof(e.key, e.value, tree_proof(nodes, version, neighbor).1, neighbor)
    &&& e.path.len() <= 256
    &&& steps_fit(e.path)
    &&& tree_wf(nodes, root_key(version)) ==> existence_root(e) == nodes[root_key(
        version,
    )].spec_hash()
}

/// Whether `p` is the proof for `key` in the tree of `version`. Where the
/// key has a value, it is the proof of existence that names the key and
/// the value, with the steps made from the proof of the tree for the hash
/// of the key; it gives the hash of the root of a well-formed tree. Else
/// it is a proof of non-existence with a leaf on one side at least, the
/// lower one on the left; it names the key itself between two leaves and
/// the hash of the key otherwise. In a well-formed tree the leaves are the
/// nearest to the key: the greatest below it and the least above it.
pub open spec fn commitment_ok(
    nodes: Map<NodeKeyView, NodeView>,
    preimages: Map<KeyHash, Seq<u8>>,
    key: Seq<u8>,
    version: Version,
    p: CommitmentProof,
) -> bool {
    let key_hash = key_hash_of(key);
    match lookup(nodes, root_key(version), key_hash) {
        Some(value) => {
            &&& p.proof matches Some(CommitmentProofKind::Exist(e)) && e@ == spec_existence_proof(
                key,
                value,
                tree_proof(nodes, version, key_hash).1,
                key_hash,
            ) && e@.path.len() <= 256 && steps_fit(e@.path) && (tree_wf(nodes, root_key(version))
                ==> shows_membership(e@, nodes[root_key(version)].spec_hash(), key, value))
        },
        None => {
            &&& p.proof matches Some(CommitmentProofKind::Nonexist(n)) && (n.left is Some
                || n.right is Some) && (n.left matches Some(e) ==> shows_neighbor(
                nodes,
                preimages,
                version,
                key_hash,
                e@,
                true,
            )) && (n.right matches Some(e) ==> shows_neighbor(
                nodes,
                preimages,
                version,
                key_hash,
                e@,
                false,
            )) && n.key@ == (if n.left is Some && n.right is Some {
                key
            } else {
                key_hash.0@
            }) && (tree_wf(nodes, root_key(version)) ==> neighbors_ok(
                nodes,
                version,
                key_hash,
                named_key_hash(n.left),
                named_key_hash(n.right),
            ))
        },
    }
}

/// The hash of the key that a proof of existence names, if there is a
/// proof.
pub open spec fn named_key_hash(e: Option<ExistenceProof>) -> Option<KeyHash> {
    match e {
        Some(e) => Some(key_hash_of(e@.key)),
        None => None,
    }
}

/// Whether the store knows the key of every leaf of the tree of `version`.
pub open spec fn preimages_cover<R: TreeReader + HasPreimage>(
    reader: &R,
    version: Version,
) -> bool {
    forall|k: KeyHash| #[trigger]
        lookup(reader.nodes(), root_key(version), k) is Some ==> reader.preimages().contains_key(k)
}

/// Whether the store knows the key of each of the two leaves next to
/// `key_hash` in the tree of `version`, as far as there are such leaves.
pub open spec fn neighbors_have_keys(
    nodes: Map<NodeKeyView, NodeView>,
    preimages: Map<KeyHash, Seq<u8>>,
    version: Version,
    key_hash: KeyHash,
) -> bool {
    forall|k: KeyHash|
        nearest(nodes, version, key_hash, Some(k), true) || nearest(
            nodes,
            version,
            key_hash,
            Some(k),
            false,
        ) ==> #[trigger] preimages.contains_key(k)
}

/// The failure of making the proof for `key` where the reads are sound,
/// nothing where it is made. A key with a value has its proof. For a key
/// without one, the empty tree has no leaf to show, and a leaf next to the
/// key can only be shown with its key.
pub open spec fn commitment_error<R: TreeReader + HasPreimage>(
    reader: &R,
    key: Seq<u8>,
    version: Version,
) -> Option<JmtError> {
    if lookup(reader.nodes(), root_key(version), key_hash_of(key)) is Some {
        None
    } else if reader.nodes()[root_key(version)] is Null {
        Some(JmtError::InvalidOperation)
    } else if !neighbors_have_keys(reader.nodes(), reader.preimages(), version, key_hash_of(key)) {
        Some(JmtError::MissingPreimage)
    } else {
        None
    }
}

/// On each side of a key, a tree has one nearest key hash with a value, or
/// none.
pub proof fn lemma_nearest_is_one(
    nodes: Map<NodeKeyView, NodeView>,
    version: Version,
    key: KeyHash,
    a: Option<KeyHash>,
    b: Option<KeyHash>,
    lower: bool,
)
    requires
        nearest(nodes, version, key, a, lower),
        nearest(nodes, version, key, b, lower),
    ensures
        a == b,
{
    if a is Some && b is Some {
        let x = a.unwrap();
        let y = b.unwrap();
        assert(lookup(nodes, root_key(version), x) is Some && on_side(x, key, lower));
        assert(lookup(nodes, root_key(version), y) is Some && on_side(y, key, lower));
        if x != y {
            lemma_lt_asymmetric(x, y);
        }
    } else if a is Some {
        assert(lookup(nodes, root_key(version), a.unwrap()) is Some);
    } else if b is Some {
        assert(lookup(nodes, root_key(version), b.unwrap()) is Some);
    }
}

/// Where the leaves of `exclusion` are the leaves next to a key in a
/// well-formed tree, the proof of non-existence is made from them unless
/// the store lacks the key of one of them.
proof fn lemma_nonexistence_error<R: TreeReader + HasPreimage>(
    reader: &R,
    version: Version,
    key_hash: KeyHash,
    exclusion: ExclusionProof,
)
    requires
        tree_wf(reader.nodes(), root_key(version)),
        exclusion_ok(reader.nodes(), version, key_hash, exclusion),
    ensures
        nonexistence_error(reader, version, exclusion) == (if neighbors_have_keys(
            reader.nodes(),
            reader.preimages(),
            version,
            key_hash,
        ) {
            None
        } else {
            Some(JmtError::MissingPreimage)
        }),
{
    let nodes = reader.nodes();
    let known = reader.preimages();
    let (left, right): (Option<KeyHash>, Option<KeyHash>) = match exclusion {
        ExclusionProof::Leftmost { leftmost_right_proof } => (
            None,
            Some(leftmost_right_proof.leaf.unwrap().key_hash),
        ),
        ExclusionProof::Middle { leftmost_right_proof, rightmost_left_proof } => (
            Some(rightmost_left_proof.leaf.unwrap().key_hash),
            Some(leftmost_right_proof.leaf.unwrap().key_hash),
        ),
        ExclusionProof::Rightmost { rightmost_left_proof } => (
            Some(rightmost_left_proof.leaf.unwrap().key_hash),
            None,
        ),
    };
    assert(neighbors_ok(nodes, version, key_hash, left, right));
    if (left matches Some(k) ==> known.contains_key(k)) && (right matches Some(k)
        ==> known.contains_key(k)) {
        assert forall|k: KeyHash|
            nearest(nodes, version, key_hash, Some(k), true) || nearest(
                nodes,
                version,
                key_hash,
                Some(k),
                false,
            ) implies #[trigger] known.contains_key(k) by {
            if nearest(nodes, version, key_hash, Some(k), true) {
                lemma_nearest_is_one(nodes, version, key_hash, Some(k), left, true);
            } else {
                lemma_nearest_is_one(nodes, version, key_hash, Some(k), right, false);
            }
        }
    }
}

/// What a failure says where a proof for a key was asked for.
pub open spec fn commitment_failed<R: TreeReader + HasPreimage>(
    reader: &R,
    version: Version,
    e: JmtError,
) -> bool {
    match e {
        JmtError::MissingPreimage => !preimages_cover(reader, version),
        JmtError::MissingValue => !tree_wf(reader.nodes(), root_key(version)),
        JmtError::MissingNode(k) => !reader.nodes().contains_key(k@),
        JmtError::Reader => !reader.reliable() || !reader.preimage_reliable(),
        JmtError::InvalidOperation => !tree_wf(reader.nodes(), root_key(version)) || (
        reader.nodes()[root_key(version)] is Null),
    }
}

/// In a well-formed tree the proof for a key with a value is one that a
/// verifier of the ICS-23 format takes, under the hash of the root, as
/// showing that the key has the value, where neither is empty.
pub proof fn lemma_proof_is_accepted(
    nodes: Map<NodeKeyView, NodeView>,
    preimages: Map<KeyHash, Seq<u8>>,
    key: Seq<u8>,
    version: Version,
    p: CommitmentProof,
)
    requires
        commitment_ok(nodes, preimages, key, version, p),
        tree_wf(nodes, root_key(version)),
        lookup(nodes, root_key(version), key_hash_of(key)) is Some,
        key.len() > 0,
        lookup(nodes, root_key(version), key_hash_of(key)).unwrap().len() > 0,
    ensures
        p.proof matches Some(CommitmentProofKind::Exist(e)) && membership_accepted(
            e@,
            nodes[root_key(version)].spec_hash(),
            key,
            lookup(nodes, root_key(version), key_hash_of(key)).unwrap(),
        ),
{
}

/// Proving after writing: once a batch is written as a version, the proof
/// for a key to which the batch gives a value, or for which it has no
/// entry while the tree before held a value, is a proof of existence. It
/// names the key with that value, and shows them under the root hash that
/// the batch gave.
pub proof fn lemma_put_then_proof(
    store: Map<NodeKeyView, NodeView>,
    ops: Seq<Op>,
    version: Version,
    root_hash: RootHash,
    batch: UpdateBatch,
    known: Map<KeyHash, Seq<u8>>,
    key: Seq<u8>,
    value: Seq<u8>,
    p: CommitmentProof,
)
    requires
        put_ok(store, ops, version, root_hash, batch),
        applied(ops, lookup(store, start_root(store, version), key_hash_of(key)), key_hash_of(key))
            == Some(value),
        commitment_ok(written_store(store, batch), known, key, version, p),
    ensures
        shown_existence(p) matches Some(e) && e.key == key && e.value == value && shows_membership(
            e,
            root_hash.0@,
            key,
            value,
        ),
{
    let after = written_store(store, batch);
    assert(lookup(after, root_key(version), key_hash_of(key)) == Some(value));
}

/// The proof of existence that a proof holds, if it holds one.
pub open spec fn shown_existence(p: CommitmentProof) -> Option<ExistenceProofView> {
    match p.proof {
        Some(CommitmentProofKind::Exist(e)) => Some(e@),
        _ => None,
    }
}

/// Two well-formed trees that hold the same value for every key give the
/// same proof of existence for a key with a value: the same steps with the
/// same hashes, whatever versions wrote the nodes of the trees.
pub proof fn lemma_same_content_same_existence_proof(
    n1: Map<NodeKeyView, NodeView>,
    known1: Map<KeyHash, Seq<u8>>,
    v1: Version,
    first: CommitmentProof,
    n2: Map<NodeKeyView, NodeView>,
    known2: Map<KeyHash, Seq<u8>>,
    v2: Version,
    second: CommitmentProof,
    key: Seq<u8>,
)
    requires
        tree_wf(n1, root_key(v1)),
        tree_wf(n2, root_key(v2)),
        forall|k: KeyHash| #[trigger] lookup(n1, root_key(v1), k) == lookup(n2, root_key(v2), k),
        lookup(n1, root_key(v1), key_hash_of(key)) is Some,
        commitment_ok(n1, known1, key, v1, first),
        commitment_ok(n2, known2, key, v2, second),
    ensures
        shown_existence(first) is Some,
        shown_existence(first) == shown_existence(second),
{
    assert(lookup(n1, root_key(v1), key_hash_of(key)) == lookup(
        n2,
        root_key(v2),
        key_hash_of(key),
    ));
    lemma_proof_determined(n1, v1, n2, v2, key_hash_of(key));
}

/// What is the proof for a key in one well-formed tree is the proof for it
/// in another that holds the same value for every key.
proof fn lemma_commitment_carries_over(
    n1: Map<NodeKeyView, NodeView>,
    v1: Version,
    n2: Map<NodeKeyView, NodeView>,
    v2: Version,
    known: Map<KeyHash, Seq<u8>>,
    key: Seq<u8>,
    p: CommitmentProof,
)
    requires
        tree_wf(n1, root_key(v1)),
        tree_wf(n2, root_key(v2)),
        forall|k: KeyHash| #[trigger] lookup(n1, root_key(v1), k) == lookup(n2, root_key(v2), k),
        commitment_ok(n1, known, key, v1, p),
    ensures
        commitment_ok(n2, known, key, v2, p),
{
    let key_hash = key_hash_of(key);
    lemma_root_determined(n1, root_key(v1), n2, root_key(v2));
    lemma_proof_determined(n1, v1, n2, v2, key_hash);
    assert(lookup(n1, root_key(v1), key_hash) == lookup(n2, root_key(v2), key_hash));
    assert forall|k: KeyHash| #[trigger]
        lookup(n2, root_key(v2), k) == lookup(n1, root_key(v1), k) by {
        assert(lookup(n1, root_key(v1), k) == lookup(n2, root_key(v2), k));
    }
    if let Some(CommitmentProofKind::Nonexist(n)) = p.proof {
        if let Some(e) = n.left {
            let neighbor = key_hash_of(e@.key);
            lemma_proof_determined(n1, v1, n2, v2, neighbor);
            assert(lookup(n1, root_key(v1), neighbor) == lookup(n2, root_key(v2), neighbor));
        }
        if let Some(e) = n.right {
            let neighbor = key_hash_of(e@.key);
            lemma_proof_determined(n1, v1, n2, v2, neighbor);
            assert(lookup(n1, root_key(v1), neighbor) == lookup(n2, root_key(v2), neighbor));
        }
    }
}

/// The proof for a key depends on the values that the tree holds only: two
/// well-formed trees that hold the same value for every key, in stores
/// that know the same keys, have the same proofs, of existence and of
/// non-existence, whatever versions wrote their nodes.
pub proof fn lemma_same_content_same_commitment(
    n1: Map<NodeKeyView, NodeView>,
    v1: Version,
    n2: Map<NodeKeyView, NodeView>,
    v2: Version,
    known: Map<KeyHash, Seq<u8>>,
    key: Seq<u8>,
    p: CommitmentProof,
)
    requires
        tree_wf(n1, root_key(v1)),
        tree_wf(n2, root_key(v2)),
        forall|k: KeyHash| #[trigger] lookup(n1, root_key(v1), k) == lookup(n2, root_key(v2), k),
    ensures
        commitment_ok(n1, known, key, v1, p) == commitment_ok(n2, known, key, v2, p),
{
    if commitment_ok(n1, known, key, v1, p) {
        lemma_commitment_carries_over(n1, v1, n2, v2, known, key, p);
    }
    if commitment_ok(n2, known, key, v2, p) {
        assert forall|k: KeyHash| #[trigger]
            lookup(n2, root_key(v2), k) == lookup(n1, root_key(v1), k) by {
            assert(lookup(n1, root_key(v1), k) == lookup(n2, root_key(v2), k));
        }
        lemma_commitment_carries_over(n2, v2, n1, v1, known, key, p);
    }
}

/// Pruning keeps the proofs: once every node that a batch marked stale is
/// removed from the store, the proof for a key in the tree of the last
/// version is what it was before.
pub proof fn lemma_pruning_keeps_commitment(
    ops: Seq<Seq<Op>>,
    roots: Seq<RootHash>,
    batches: Seq<UpdateBatch>,
    known: Map<KeyHash, Seq<u8>>,
    key: Seq<u8>,
    p: CommitmentProof,
)
    requires
        committed(ops, roots, batches),
        batches.len() > 0,
    ensures
        tree_wf(pruned_store(batches), root_key(last_version(batches))),
        commitment_ok(pruned_store(batches), known, key, last_version(batches), p)
            == commitment_ok(
            store_after(batches, batches.len()),
            known,
            key,
            last_version(batches),
            p,
        ),
{
    let version = last_version(batches);
    let store = store_after(batches, batches.len());
    let kept = pruned_store(batches);
    assert(step_ok(ops, roots, batches, batches.len() - 1));
    lemma_pruning_keeps_tree(ops, roots, batches, key_hash_of(key));
    assert forall|k: KeyHash| #[trigger]
        lookup(kept, root_key(version), k) == lookup(store, root_key(version), k) by {
        lemma_pruning_keeps_tree(ops, roots, batches, k);
    }
    lemma_same_content_same_commitment(kept, version, store, version, known, key, p);
}

/// A proof of existence that shows one key with its value does not show
/// another key.
pub proof fn lemma_membership_names_key(
    p: ExistenceProofView,
    root: Seq<u8>,
    key: Seq<u8>,
    value: Seq<u8>,
    other: Seq<u8>,
    other_value: Seq<u8>,
)
    requires
        shows_membership(p, root, key, value),
        other != key,
    ensures
        !shows_membership(p, root, other, other_value),
{
}

/// The proof of existence made for the leaf of a proof of the tree shows
/// that leaf as a neighbour.
proof fn lemma_neighbor_shown<R: TreeReader + HasPreimage>(
    reader: &R,
    version: Version,
    key_hash: KeyHash,
    proof_of_leaf: SparseMerkleProof,
    e: ExistenceProofView,
    lower: bool,
)
    requires
        neighbor_ok(reader.nodes(), version, key_hash, proof_of_leaf, lower),
        neighbor_existence(reader, version, proof_of_leaf, e),
    ensures
        shows_neighbor(reader.nodes(), reader.preimages(), version, key_hash, e, lower),
        key_hash_of(e.key) == proof_of_leaf.leaf.unwrap().key_hash,
{
    let neighbor = proof_of_leaf.leaf.unwrap().key_hash;
    let key = reader.preimages()[neighbor];
    let value = lookup(reader.nodes(), root_key(version), neighbor).unwrap();
    lemma_key_hash_of(key, neighbor);
    lemma_existence_root(key, value, hash_views(proof_of_leaf.siblings@), neighbor);
}

impl<'a, R: TreeReader + HasPreimage> JellyfishMerkleTree<'a, R> {
    /// The proof of existence of the leaf of `proof` in the tree of
    /// `version`, with the key that the store knows for its hash.
    fn neighbor_to_existence_proof(
        &self,
        version: Version,
        proof: &SparseMerkleProof,
        key_first: bool,
    ) -> (r: Result<ExistenceProof, JmtError>)
        requires
            has_leaf(*proof),
        ensures
            reads_sound(self.reader, version) ==> fails_with(
                r,
                neighbor_error(self.reader, version, *proof, key_first),
            ),
            r matches Ok(e) ==> neighbor_existence(self.reader, version, *proof, e@),
            r matches Err(e) ==> neighbor_failed(self.reader, version, *proof, e),
    {
        let key_hash = match proof.leaf() {
            Some(l) => l.key_hash(),
            None => {
                return Err(JmtError::MissingValue);
            },
        };
        let mut key: Option<Vec<u8>> = None;
        if key_first {
            key = match self.reader.preimage(key_hash) {
                Ok(Some(k)) => Some(k),
                Ok(None) => {
                    return Err(JmtError::MissingPreimage);
                },
                Err(e) => {
                    return Err(e);
                },
            };
        }
        let value = match self.get(key_hash, version) {
            Ok(Some(v)) => v,
            Ok(None) => {
                return Err(JmtError::MissingValue);
            },
            Err(e) => {
                return Err(e);
            },
        };
        let key = match key {
            Some(k) => k,
            None => match self.reader.preimage(key_hash) {
                Ok(Some(k)) => k,
                Ok(None) => {
                    return Err(JmtError::MissingPreimage);
                },
                Err(e) => {
                    return Err(e);
                },
            },
        };
        proof {
            lemma_key_hash_of(key@, key_hash);
        }
        Ok(sparse_merkle_proof_to_ics23_existence_proof(key, value, proof))
    }

    /// Makes the proof of non-existence for `key` from the proofs of the
    /// leaves next to it in the tree of `version`. Where the key lies
    /// between two leaves, the proof names the key itself, else its hash.
    pub fn exclusion_proof_to_ics23_nonexistence_proof(
        &self,
        key: Vec<u8>,
        version: Version,
        exclusion: &ExclusionProof,
    ) -> (r: Result<NonExistenceProof, JmtError>)
        requires
            exclusion_has_leaves(*exclusion),
        ensures
            reads_sound(self.reader, version) ==> fails_with(
                r,
                nonexistence_error(self.reader, version, *exclusion),
            ),
            r matches Ok(p) ==> nonexistence_ok(self.reader, key@, version, *exclusion, p),
            r matches Err(e) ==> nonexistence_failed(self.reader, version, *exclusion, e),
    {
        match exclusion {
            ExclusionProof::Leftmost { leftmost_right_proof } => {
                let right = match self.neighbor_to_existence_proof(
                    version,
                    leftmost_right_proof,
                    true,
                ) {
                    Ok(e) => e,
                    Err(e) => {
                        return Err(e);
                    },
                };
                let key_hash = KeyHash::with_sha256(key.as_slice());
                let mut hashed: Vec<u8> = Vec::new();
                hashed.extend_from_slice(key_hash.0.as_slice());
                assert(hashed@ =~= key_hash.0@);
                Ok(NonExistenceProof { key: hashed, right: Some(right), left: None })
            },
            ExclusionProof::Middle { leftmost_right_proof, rightmost_left_proof } => {
                let right = match self.neighbor_to_existence_proof(
                    version,
                    leftmost_right_proof,
                    false,
                ) {
                    Ok(e) => e,
                    Err(e) => {
                        return Err(e);
                    },
                };
                let left = match self.neighbor_to_existence_proof(
                    version,
                    rightmost_left_proof,
                    false,
                ) {
                    Ok(e) => e,
                    Err(e) => {
                        return Err(e);
                    },
                };
                Ok(NonExistenceProof { key, right: Some(right), left: Some(left) })
            },
            ExclusionProof::Rightmost { rightmost_left_proof } => {
                let left = match self.neighbor_to_existence_proof(
                    version,
                    rightmost_left_proof,
                    false,
                ) {
                    Ok(e) => e,
                    Err(e) => {
                        return Err(e);
                    },
                };
                let key_hash = KeyHash::with_sha256(key.as_slice());
                let mut hashed: Vec<u8> = Vec::new();
                hashed.extend_from_slice(key_hash.0.as_slice());
                assert(hashed@ =~= key_hash.0@);
                Ok(NonExistenceProof { key: hashed, right: None, left: Some(left) })
            },
        }
    }

    /// The proof, in the ICS-23 format, that `key` has its value in the tree
    /// of `version`, or that it has none.
    pub fn get_with_ics23_proof(&self, key: Vec<u8>, version: Version) -> (r: Result<
        CommitmentProof,
        JmtError,
    >)
        ensures
            self.reader.reliable() && tree_wf(self.reader.nodes(), root_key(version)) && lookup(
                self.reader.nodes(),
                root_key(version),
                key_hash_of(key@),
            ) is Some ==> r is Ok,
            reads_sound(self.reader, version) ==> fails_with(
                r,
                commitment_error(self.reader, key@, version),
            ),
            lacks_root(self.reader, version) ==> root_missing(r, version),
            r matches Ok(p) ==> commitment_ok(
                self.reader.nodes(),
                self.reader.preimages(),
                key@,
                version,
                p,
            ),
            r matches Err(e) ==> commitment_failed(self.reader, version, e),
    {
        let key_hash = KeyHash::with_sha256(key.as_slice());
        let ghost nodes = self.reader.nodes();
        let found = match self.get_with_exclusion_proof(key_hash, version) {
            Ok(found) => found,
            Err(e) => {
                return Err(e);
            },
        };
        match found {
            Ok((value, proof_of_key)) => {
                proof {
                    lemma_existence_root(key@, value@, hash_views(proof_of_key.siblings@), key_hash);
                }
                let exist = sparse_merkle_proof_to_ics23_existence_proof(key, value, &proof_of_key);
                Ok(CommitmentProof { proof: Some(CommitmentProofKind::Exist(exist)) })
            },
            Err(exclusion_proof) => {
                proof {
                    if tree_wf(nodes, root_key(version)) {
                        lemma_nonexistence_error(self.reader, version, key_hash, exclusion_proof);
                    }
                }
                let nonexist = match self.exclusion_proof_to_ics23_nonexistence_proof(
                    key,
                    version,
                    &exclusion_proof,
                ) {
                    Ok(p) => p,
                    Err(e) => {
                        return Err(e);
                    },
                };
                proof {
                    lemma_nonexistence_shown(
                        self.reader,
                        key@,
                        key_hash,
                        version,
                        exclusion_proof,
                        nonexist,
                    );
                }
                Ok(CommitmentProof { proof: Some(CommitmentProofKind::Nonexist(nonexist)) })
            },
        }
    }
}

/// The proof of non-existence made from the proofs of the leaves next to a
/// key shows those leaves as the neighbours of the key.
proof fn lemma_nonexistence_shown<R: TreeReader + HasPreimage>(
    reader: &R,
    key: Seq<u8>,
    key_hash: KeyHash,
    version: Version,
    exclusion: ExclusionProof,
    p: NonExistenceProof,
)
    requires
        key_hash == key_hash_of(key),
        exclusion_ok(reader.nodes(), version, key_hash, exclusion),
        nonexistence_ok(reader, key, version, exclusion, p),
    ensures
        p.left is Some || p.right is Some,
        p.left matches Some(e) ==> shows_neighbor(
            reader.nodes(),
            reader.preimages(),
            version,
            key_hash,
            e@,
            true,
        ),
        p.right matches Some(e) ==> shows_neighbor(
            reader.nodes(),
            reader.preimages(),
            version,
            key_hash,
            e@,
            false,
        ),
        p.key@ == (if p.left is Some && p.right is Some {
            key
        } else {
            key_hash.0@
        }),
        tree_wf(reader.nodes(), root_key(version)) ==> neighbors_ok(
            reader.nodes(),
            version,
            key_hash,
            named_key_hash(p.left),
            named_key_hash(p.right),
        ),
{
    match exclusion {
        ExclusionProof::Leftmost { leftmost_right_proof } => {
            lemma_neighbor_shown(
                reader,
                version,
                key_hash,
                leftmost_right_proof,
                p.right.unwrap()@,
                false,
            );
        },
        ExclusionProof::Middle { leftmost_right_proof, rightmost_left_proof } => {
            lemma_neighbor_shown(
                reader,
                version,
                key_hash,
                leftmost_right_proof,
                p.right.unwrap()@,
                false,
            );
            lemma_neighbor_shown(
                reader,
                version,
                key_hash,
                rightmost_left_proof,
                p.left.unwrap()@,
                true,
            );
        },
        ExclusionProof::Rightmost { rightmost_left_proof } => {
            lemma_neighbor_shown(
                reader,
                version,
                key_hash,
                rightmost_left_proof,
                p.left.unwrap()@,
                true,
            );
        },
    }
}

} // verus!
