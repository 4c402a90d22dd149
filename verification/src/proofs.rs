//! Proofs that a key is, or is not, in the tree under a given root hash.
pub use crate::hash::{INTERNAL_DOMAIN_SEPARATOR, LEAF_DOMAIN_SEPARATOR};

use crate::hash::{
    bytes32_eq, hash_internal, hash_leaf, hash_value, sha256, spec_internal_hash, spec_leaf_hash,
    KeyHash, SPARSE_MERKLE_PLACEHOLDER_HASH,
};
use crate::node_type::{
    count_in, hash_views, is_range_width, lemma_range_target, range_hash, range_siblings,
    range_target, single_leaf_in, target_hash, Child,
};
use vstd::prelude::*;

verus! {

/// The hash of the root of a tree.
#[derive(Clone, Copy, Debug, PartialEq, Eq)]
pub struct RootHash(pub [u8; 32]);

/// The hash of the parent of `h` and `sibling`; `bit` says that `h` is the
/// right child.
pub open spec fn fold_step(bit: bool, sibling: Seq<u8>, h: Seq<u8>) -> Seq<u8> {
    if bit {
        spec_internal_hash(sibling, h)
    } else {
        spec_internal_hash(h, sibling)
    }
}

/// The hash at bit depth `depth` on the way to `key`, where `h` is the hash
/// at depth `depth + siblings.len()` and `siblings` lists the hashes beside
/// the way, the deepest first.
pub open spec fn fold_from(h: Seq<u8>, siblings: Seq<Seq<u8>>, key: KeyHash, depth: int) -> Seq<u8>
    decreases siblings.len(),
{
    if siblings.len() == 0 {
        h
    } else {
        fold_step(
            key.bit(depth),
            siblings.last(),
            fold_from(h, siblings.drop_last(), key, depth + 1),
        )
    }
}

/// Folding over `lower + upper` folds over `lower` first, below `upper`.
pub proof fn lemma_fold_concat(
    h: Seq<u8>,
    lower: Seq<Seq<u8>>,
    upper: Seq<Seq<u8>>,
    key: KeyHash,
    depth: int,
)
    ensures
        fold_from(h, lower + upper, key, depth) == fold_from(
            fold_from(h, lower, key, depth + upper.len()),
            upper,
            key,
            depth,
        ),
    decreases upper.len(),
{
    if upper.len() == 0 {
        assert(lower + upper =~= lower);
    } else {
        assert((lower + upper).drop_last() =~= lower + upper.drop_last());
        assert((lower + upper).last() == upper.last());
        lemma_fold_concat(h, lower, upper.drop_last(), key, depth + 1);
    }
}

/// The bits of a key are the bits of its nibbles, the high bit first.
pub proof fn lemma_key_bit_of_nibble(key: KeyHash, d: int, t: int)
    requires
        0 <= d < 64,
        0 <= t < 4,
    ensures
        key.bit(4 * d + t) == ((key.nibble(d) >> ((3 - t) as u8)) & 1u8 == 1u8),
{
    let i = 4 * d + t;
    let b: u8 = key.0[d / 2];
    assert(i / 8 == d / 2);
    if d % 2 == 0 {
        assert(i % 8 == t);
        if t == 0 {
            assert((b >> 7u8) & 1u8 == ((b >> 4u8) >> 3u8) & 1u8) by (bit_vector);
        } else if t == 1 {
            assert((b >> 6u8) & 1u8 == ((b >> 4u8) >> 2u8) & 1u8) by (bit_vector);
        } else if t == 2 {
            assert((b >> 5u8) & 1u8 == ((b >> 4u8) >> 1u8) & 1u8) by (bit_vector);
        } else {
            assert((b >> 4u8) & 1u8 == ((b >> 4u8) >> 0u8) & 1u8) by (bit_vector);
        }
    } else {
        assert(i % 8 == 4 + t);
        if t == 0 {
            assert((b >> 3u8) & 1u8 == ((b & 0x0fu8) >> 3u8) & 1u8) by (bit_vector);
        } else if t == 1 {
            assert((b >> 2u8) & 1u8 == ((b & 0x0fu8) >> 2u8) & 1u8) by (bit_vector);
        } else if t == 2 {
            assert((b >> 1u8) & 1u8 == ((b & 0x0fu8) >> 1u8) & 1u8) by (bit_vector);
        } else {
            assert((b >> 0u8) & 1u8 == ((b & 0x0fu8) >> 0u8) & 1u8) by (bit_vector);
        }
    }
}

/// The level of the binary tree of a node at which a range of `width` slots
/// is split: 0 for the whole node.
pub open spec fn level_of(width: int) -> int {
    if width >= 16 {
        0
    } else if width >= 8 {
        1
    } else if width >= 4 {
        2
    } else if width >= 2 {
        3
    } else {
        4
    }
}

/// In a range that holds slot `n`, the descent turns right where the bit of
/// `n` for that level is set.
pub proof fn lemma_turn_is_bit(n: u8, start: u8, width: u8)
    requires
        width == 2 || width == 4 || width == 8 || width == 16,
        start % width == 0,
        start <= n,
        n < start + width,
        start + width <= 16,
    ensures
        (n >= start + width / 2) == ((n >> ((3 - level_of(width as int)) as u8)) & 1u8 == 1u8),
{
    if width == 16 {
        assert(start == 0);
        assert((n >= 8u8) == ((n >> 3u8) & 1u8 == 1u8)) by (bit_vector)
            requires
                n < 16u8,
        ;
    } else if width == 8 {
        assert(start == 0 || start == 8);
        if start == 0 {
            assert((n >= 4u8) == ((n >> 2u8) & 1u8 == 1u8)) by (bit_vector)
                requires
                    n < 8u8,
            ;
        } else {
            assert((n >= 12u8) == ((n >> 2u8) & 1u8 == 1u8)) by (bit_vector)
                requires
                    8u8 <= n,
                    n < 16u8,
            ;
        }
    } else if width == 4 {
        assert(start == 0 || start == 4 || start == 8 || start == 12);
        assert(n < 16u8 ==> (n & 3u8 >= 2u8) == ((n >> 1u8) & 1u8 == 1u8)) by (bit_vector);
        assert(n < 16u8 ==> (n & 3u8 == n - 0u8 || n & 3u8 == n - 4u8 || n & 3u8 == n - 8u8 || n
            & 3u8 == n - 12u8)) by (bit_vector);
        assert(n < 16u8 ==> n & 3u8 < 4u8) by (bit_vector);
    } else {
        assert(n < 16u8 ==> (n & 1u8 == 1u8) == (n % 2u8 == 1u8)) by (bit_vector);
        assert((n >> 0u8) == n) by (bit_vector);
    }
}

/// Bit `t` of a nibble, counted from its high bit.
pub open spec fn nibble_bit(x: u8, t: int) -> bool {
    (x >> ((3 - t) as u8)) & 1u8 == 1u8
}

/// Two key hashes with the same first `d` nibbles have the same first
/// `4 * d` bits.
pub proof fn lemma_bits_of_path(a: KeyHash, b: KeyHash, d: int, i: int)
    requires
        0 <= d <= 64,
        a.nibbles(d) == b.nibbles(d),
        0 <= i < 4 * d,
    ensures
        a.bit(i) == b.bit(i),
{
    let e = i / 4;
    let t = i % 4;
    assert(a.nibbles(d)[e] == a.nibble(e));
    assert(b.nibbles(d)[e] == b.nibble(e));
    lemma_key_bit_of_nibble(a, e, t);
    lemma_key_bit_of_nibble(b, e, t);
}

/// The slot at which the descent towards slot `n` ends has the bits of `n`
/// at the levels through which the descent went.
pub proof fn lemma_range_same_bits(ch: Seq<Option<Child>>, start: int, width: int, n: int, t: int)
    requires
        is_range_width(width),
        0 <= start,
        start + width <= 16,
        start % width == 0,
        start <= n < start + width,
        range_target(ch, start, width, n) is Some,
        level_of(width) <= t < level_of(width) + range_siblings(ch, start, width, n).len(),
    ensures
        nibble_bit(range_target(ch, start, width, n).unwrap() as u8, t) == nibble_bit(n as u8, t),
    decreases width,
{
    let half = width / 2;
    let m = range_target(ch, start, width, n).unwrap();
    if width <= 1 {
    } else if count_in(ch, start, width) == 0 {
    } else if single_leaf_in(ch, start, width) {
    } else {
        if width == 16 {
            assert(start % 8 == 0 && (start + 8) % 8 == 0);
        } else if width == 8 {
            assert(start % 4 == 0 && (start + 4) % 4 == 0);
        } else if width == 4 {
            assert(start % 2 == 0 && (start + 2) % 2 == 0);
        }
        assert(start % half == 0 && (start + half) % half == 0);
        if n < start + half {
            lemma_range_target(ch, start, half, n);
            if t == level_of(width) {
                lemma_turn_is_bit(n as u8, start as u8, width as u8);
                lemma_turn_is_bit(m as u8, start as u8, width as u8);
            } else {
                lemma_range_same_bits(ch, start, half, n, t);
            }
        } else {
            lemma_range_target(ch, start + half, half, n);
            if t == level_of(width) {
                lemma_turn_is_bit(n as u8, start as u8, width as u8);
                lemma_turn_is_bit(m as u8, start as u8, width as u8);
            } else {
                lemma_range_same_bits(ch, start + half, half, n, t);
            }
        }
    }
}

/// The hash of a range of slots is what folding gives from the end of the
/// descent towards a nibble of the key, over the hashes beside the descent.
pub proof fn lemma_range_fold(ch: Seq<Option<Child>>, start: int, width: int, key: KeyHash, d: int)
    requires
        is_range_width(width),
        0 <= start,
        start + width <= 16,
        start % width == 0,
        0 <= d < 64,
        start <= key.nibble(d) < start + width,
    ensures
        range_hash(ch, start, width) == fold_from(
            target_hash(ch, range_target(ch, start, width, key.nibble(d) as int)),
            range_siblings(ch, start, width, key.nibble(d) as int),
            key,
            4 * d + level_of(width),
        ),
    decreases width,
{
    let n = key.nibble(d);
    let half = width / 2;
    if width <= 1 {
    } else if count_in(ch, start, width) == 0 {
    } else if single_leaf_in(ch, start, width) {
    } else {
        lemma_key_bit_of_nibble(key, d, level_of(width));
        lemma_turn_is_bit(n, start as u8, width as u8);
        if width == 16 {
            assert(start % 8 == 0 && (start + 8) % 8 == 0);
        } else if width == 8 {
            assert(start % 4 == 0 && (start + 4) % 4 == 0);
        } else if width == 4 {
            assert(start % 2 == 0 && (start + 2) % 2 == 0);
        }
        assert(start % half == 0 && (start + half) % half == 0);
        let sibs = range_siblings(ch, start, width, n as int);
        if n < start + half {
            lemma_range_fold(ch, start, half, key, d);
            assert(sibs.drop_last() =~= range_siblings(ch, start, half, n as int));
        } else {
            lemma_range_fold(ch, start + half, half, key, d);
            assert(sibs.drop_last() =~= range_siblings(ch, start + half, half, n as int));
        }
    }
}

/// What a proof shows of a leaf: its key hash and the hash of its value.
#[derive(Clone, Copy, Debug, PartialEq, Eq)]
pub struct SparseMerkleLeafNode {
    pub key_hash: KeyHash,
    pub value_hash: [u8; 32],
}

impl SparseMerkleLeafNode {
    /// The hash of the leaf.
    pub open spec fn spec_hash(self) -> Seq<u8> {
        spec_leaf_hash(self.key_hash.0@, self.value_hash@)
    }

    /// What a proof shows of the leaf with the given key hash and value
    /// hash.
    pub fn new(key_hash: KeyHash, value_hash: [u8; 32]) -> (r: Self)
        ensures
            r.key_hash == key_hash,
            r.value_hash == value_hash,
    {
        SparseMerkleLeafNode { key_hash, value_hash }
    }

    /// The key hash of the leaf.
    pub fn key_hash(&self) -> (k: KeyHash)
        ensures
            k == self.key_hash,
    {
        self.key_hash
    }

    /// The hash of the value of the leaf.
    pub fn value_hash(&self) -> (h: [u8; 32])
        ensures
            h == self.value_hash,
    {
        self.value_hash
    }

    /// Computes the hash of the leaf.
    pub fn hash(&self) -> (h: [u8; 32])
        ensures
            h@ == self.spec_hash(),
    {
        hash_leaf(&self.key_hash.0, &self.value_hash)
    }
}

/// A proof for one key: the leaf at the end of the way to the key, if there
/// is one, and the hashes beside that way, from the leaf up to the root.
#[derive(Debug, PartialEq, Eq)]
pub struct SparseMerkleProof {
    pub leaf: Option<SparseMerkleLeafNode>,
    pub siblings: Vec<[u8; 32]>,
}

impl Clone for SparseMerkleProof {
    fn clone(&self) -> (r: Self)
        ensures
            r.leaf == self.leaf,
            r.siblings@ == self.siblings@,
    {
        let mut siblings: Vec<[u8; 32]> = Vec::new();
        let mut i: usize = 0;
        while i < self.siblings.len()
            invariant
                i <= self.siblings@.len(),
                siblings@ == self.siblings@.take(i as int),
            decreases self.siblings@.len() - i,
        {
            siblings.push(self.siblings[i]);
            i += 1;
            assert(siblings@ =~= self.siblings@.take(i as int));
        }
        assert(siblings@ =~= self.siblings@);
        SparseMerkleProof { leaf: self.leaf, siblings }
    }
}

impl SparseMerkleProof {
    /// The hash at the lower end of the proof: that of its leaf, or the
    /// placeholder.
    pub open spec fn spec_bottom_hash(&self) -> Seq<u8> {
        match self.leaf {
            Some(l) => l.spec_hash(),
            None => SPARSE_MERKLE_PLACEHOLDER_HASH@,
        }
    }

    /// The root hash that the proof gives on the way to `key`.
    pub open spec fn spec_root_for(&self, key: KeyHash) -> Seq<u8> {
        fold_from(self.spec_bottom_hash(), hash_views(self.siblings@), key, 0)
    }

    /// The root hash that the proof gives for its own leaf.
    pub open spec fn spec_root(&self) -> Seq<u8> {
        self.spec_root_for(self.leaf.unwrap().key_hash)
    }

    /// The proof with the given leaf and hashes, the deepest first.
    pub fn new(leaf: Option<SparseMerkleLeafNode>, siblings: Vec<[u8; 32]>) -> (r: Self)
        ensures
            r.leaf == leaf,
            r.siblings == siblings,
    {
        SparseMerkleProof { leaf, siblings }
    }

    /// The leaf of the proof.
    pub fn leaf(&self) -> (l: Option<SparseMerkleLeafNode>)
        ensures
            l == self.leaf,
    {
        self.leaf
    }

    /// The hashes beside the way, from the leaf up to the root.
    pub fn siblings(&self) -> (s: &Vec<[u8; 32]>)
        ensures
            s == self.siblings,
    {
        &self.siblings
    }

    /// Computes the root hash that the proof gives on the way to `key`.
    pub fn root_hash_for(&self, key: KeyHash) -> (r: RootHash)
        requires
            self.siblings@.len() <= 256,
        ensures
            r.0@ == self.spec_root_for(key),
    {
        let n = self.siblings.len();
        let mut acc: [u8; 32] = match self.leaf {
            Some(l) => l.hash(),
            None => SPARSE_MERKLE_PLACEHOLDER_HASH,
        };
        let ghost all = hash_views(self.siblings@);
        let mut j: usize = 0;
        assert(all.take(0) =~= Seq::<Seq<u8>>::empty());
        while j < n
            invariant
                j <= n <= 256,
                n == self.siblings@.len(),
                all == hash_views(self.siblings@),
                acc@ == fold_from(self.spec_bottom_hash(), all.take(j as int), key, n - j),
            decreases n - j,
        {
            let bit = key.get_bit(n - j - 1);
            let sibling = self.siblings[j];
            proof {
                assert(all.take(j + 1).drop_last() =~= all.take(j as int));
                assert(all.take(j + 1).last() == sibling@);
            }
            acc = if bit {
                hash_internal(&sibling, &acc)
            } else {
                hash_internal(&acc, &sibling)
            };
            j += 1;
        }
        assert(all.take(n as int) =~= all);
        RootHash(acc)
    }

    /// Computes the root hash that the proof gives for its own leaf.
    pub fn root_hash(&self) -> (r: RootHash)
        requires
            self.leaf is Some,
            self.siblings@.len() <= 256,
        ensures
            r.0@ == self.spec_root(),
    {
        match self.leaf {
            Some(l) => self.root_hash_for(l.key_hash),
            None => RootHash(SPARSE_MERKLE_PLACEHOLDER_HASH),
        }
    }

    /// Whether the proof shows that `key` has `value` under the root hash
    /// `root`: it has at most 256 hashes and the leaf of `key` with the hash
    /// of `value`, and gives `root`.
    pub open spec fn shows_existence(&self, root: Seq<u8>, key: KeyHash, value: Seq<u8>) -> bool {
        self.siblings@.len() <= 256 && self.leaf is Some && self.leaf.unwrap().key_hash == key
            && self.leaf.unwrap().value_hash@ == sha256(value) && self.spec_root_for(key) == root
    }

    /// Whether the proof shows that `key` has no value under the root hash
    /// `root`: it has at most 256 hashes, gives `root` on the way to `key`,
    /// and ends in an empty subtree, or at the leaf of another key whose
    /// way is the same as far as the proof goes.
    pub open spec fn shows_absence(&self, root: Seq<u8>, key: KeyHash) -> bool {
        self.siblings@.len() <= 256 && (self.leaf matches Some(l) ==> l.key_hash != key
            && forall|i: int| 0 <= i < self.siblings@.len() ==> l.key_hash.bit(i) == key.bit(i))
            && self.spec_root_for(key) == root
    }

    /// Whether the proof shows that `key` has `value` in the tree with root
    /// hash `expected_root`.
    pub fn verify_existence(&self, expected_root: RootHash, key: KeyHash, value: &[u8]) -> (ok:
        bool)
        ensures
            ok == self.shows_existence(expected_root.0@, key, value@),
    {
        if self.siblings.len() > 256 {
            return false;
        }
        match self.leaf {
            Some(l) => {
                let value_hash = hash_value(value);
                if !l.key_hash.same(&key) || !bytes32_eq(&l.value_hash, &value_hash) {
                    return false;
                }
                let root = self.root_hash_for(key);
                bytes32_eq(&root.0, &expected_root.0)
            },
            None => false,
        }
    }

    /// Whether the proof shows that `key` is not in the tree with root hash
    /// `expected_root`: the way to `key` ends in an empty subtree, or at a
    /// leaf of another key.
    pub fn verify_nonexistence(&self, expected_root: RootHash, key: KeyHash) -> (ok: bool)
        ensures
            ok == self.shows_absence(expected_root.0@, key),
    {
        let n = self.siblings.len();
        if n > 256 {
            return false;
        }
        if let Some(l) = self.leaf {
            if l.key_hash.same(&key) {
                return false;
            }
            let mut i: usize = 0;
            while i < n
                invariant
                    i <= n <= 256,
                    n == self.siblings@.len(),
                    self.leaf == Some(l),
                    forall|j: int| 0 <= j < i ==> l.key_hash.bit(j) == key.bit(j),
                decreases n - i,
            {
                if l.key_hash.get_bit(i) != key.get_bit(i) {
                    return false;
                }
                i += 1;
            }
        }
        let root = self.root_hash_for(key);
        bytes32_eq(&root.0, &expected_root.0)
    }
}

/// A proof that a key is not in the tree, from the leaves next to it.
#[derive(Debug, PartialEq, Eq)]
pub enum ExclusionProof {
    /// The key sorts before every leaf; the proof is that of the least leaf.
    Leftmost { leftmost_right_proof: SparseMerkleProof },
    /// The key lies between two leaves that are next to each other:
    /// `leftmost_right_proof` is that of the least leaf above the key,
    /// `rightmost_left_proof` that of the greatest leaf below it.
    Middle { leftmost_right_proof: SparseMerkleProof, rightmost_left_proof: SparseMerkleProof },
    /// The key sorts after every leaf; the proof is that of the greatest leaf.
    Rightmost { rightmost_left_proof: SparseMerkleProof },
}

} // verus!
