//! SHA-256, the domain separators, and the 256-bit key hash with its bits
//! and nibbles.
use ics23::HostFunctionsProvider;
use vstd::prelude::*;

verus! {

/// The bytes `JMT::LeafNode`, which start the hash input of every leaf.
pub const LEAF_DOMAIN_SEPARATOR: [u8; 13] = [
    74, 77, 84, 58, 58, 76, 101, 97, 102, 78, 111, 100, 101,
];

/// The bytes `JMT::IntrnalNode`, which start the hash input of every inner
/// node of the binary tree.
pub const INTERNAL_DOMAIN_SEPARATOR: [u8; 16] = [
    74, 77, 84, 58, 58, 73, 110, 116, 114, 110, 97, 108, 78, 111, 100, 101,
];

/// The bytes `SPARSE_MERKLE_PLACEHOLDER_HASH__`, the hash of an empty subtree.
pub const SPARSE_MERKLE_PLACEHOLDER_HASH: [u8; 32] = [
    83, 80, 65, 82, 83, 69, 95, 77, 69, 82, 75, 76, 69, 95, 80, 76,
    65, 67, 69, 72, 79, 76, 68, 69, 82, 95, 72, 65, 83, 72, 95, 95,
];

/// The SHA-256 digest of `data`, as the hash provider computes it.
pub uninterp spec fn sha256(data: Seq<u8>) -> Seq<u8>;

/// Calls `HostFunctionsManager::sha2_256` of the ics23 crate. Trusted: the
/// 32 bytes returned are the SHA-256 digest of `data`, a function of the
/// bytes of `data` alone.
#[verifier::external_body]
pub(crate) fn sha256_digest(data: &[u8]) -> (out: [u8; 32])
    ensures
        out@ == sha256(data@),
{
    ics23::HostFunctionsManager::sha2_256(data)
}

/// The hash of a leaf that binds `key_hash` to `value_hash`.
pub open spec fn spec_leaf_hash(key_hash: Seq<u8>, value_hash: Seq<u8>) -> Seq<u8> {
    sha256(LEAF_DOMAIN_SEPARATOR@ + key_hash + value_hash)
}

/// Whether `h` is the SHA-256 digest of some bytes.
pub open spec fn is_digest(h: Seq<u8>) -> bool {
    exists|bytes: Seq<u8>| h == #[trigger] sha256(bytes)
}

/// The hash of an inner node of the binary tree with the given two children.
pub open spec fn spec_internal_hash(left: Seq<u8>, right: Seq<u8>) -> Seq<u8> {
    sha256(INTERNAL_DOMAIN_SEPARATOR@ + left + right)
}

/// Hashes a value.
pub fn hash_value(value: &[u8]) -> (out: [u8; 32])
    ensures
        out@ == sha256(value@),
{
    sha256_digest(value)
}

/// Hashes a leaf from its key hash and value hash.
pub fn hash_leaf(key_hash: &[u8; 32], value_hash: &[u8; 32]) -> (out: [u8; 32])
    ensures
        out@ == spec_leaf_hash(key_hash@, value_hash@),
{
    let mut buf: Vec<u8> = Vec::with_capacity(77);
    buf.extend_from_slice(LEAF_DOMAIN_SEPARATOR.as_slice());
    buf.extend_from_slice(key_hash.as_slice());
    buf.extend_from_slice(value_hash.as_slice());
    assert(buf@ =~= LEAF_DOMAIN_SEPARATOR@ + key_hash@ + value_hash@);
    sha256_digest(buf.as_slice())
}

/// Hashes an inner node of the binary tree from its two children.
pub fn hash_internal(left: &[u8; 32], right: &[u8; 32]) -> (out: [u8; 32])
    ensures
        out@ == spec_internal_hash(left@, right@),
{
    let mut buf: Vec<u8> = Vec::with_capacity(80);
    buf.extend_from_slice(INTERNAL_DOMAIN_SEPARATOR.as_slice());
    buf.extend_from_slice(left.as_slice());
    buf.extend_from_slice(right.as_slice());
    assert(buf@ =~= INTERNAL_DOMAIN_SEPARATOR@ + left@ + right@);
    sha256_digest(buf.as_slice())
}

/// Whether two 32-byte values hold the same bytes.
pub fn bytes32_eq(a: &[u8; 32], b: &[u8; 32]) -> (same: bool)
    ensures
        same == (*a == *b),
        same == (a@ == b@),
{
    let mut i: usize = 0;
    while i < 32
        invariant
            i <= 32,
            forall|j: int| 0 <= j < i ==> a[j] == b[j],
        decreases 32 - i,
    {
        if a[i] != b[i] {
            assert(a@[i as int] != b@[i as int]);
            return false;
        }
        i += 1;
    }
    assert(*a =~= *b);
    assert(a@ =~= b@);
    true
}

/// The key hash of a key: its SHA-256 digest.
pub open spec fn key_hash_of(key: Seq<u8>) -> KeyHash {
    choose|h: KeyHash| is_key_hash_of(h, key)
}

/// Whether `h` holds the SHA-256 digest of `key`.
pub open spec fn is_key_hash_of(h: KeyHash, key: Seq<u8>) -> bool {
    h.0@ == sha256(key)
}

/// A key hash that holds the digest of a key is the key hash of that key.
pub proof fn lemma_key_hash_of(key: Seq<u8>, h: KeyHash)
    requires
        h.0@ == sha256(key),
    ensures
        h == key_hash_of(key),
{
    assert(is_key_hash_of(h, key));
    let other = key_hash_of(key);
    assert(is_key_hash_of(other, key));
    assert(other.0 =~= h.0);
}

/// A 256-bit key hash: the position of a key in the tree.
#[derive(Clone, Copy, Debug, PartialEq, Eq, Hash, PartialOrd, Ord)]
pub struct KeyHash(pub [u8; 32]);

impl KeyHash {
    /// Bit `i` of the key, counted from the most significant bit of byte 0.
    pub open spec fn bit(self, i: int) -> bool {
        (self.0[i / 8] >> ((7 - i % 8) as u8)) & 1u8 == 1u8
    }

    /// Nibble `i` of the key, counted from the high half of byte 0.
    pub open spec fn nibble(self, i: int) -> u8 {
        if i % 2 == 0 {
            self.0[i / 2] >> 4u8
        } else {
            self.0[i / 2] & 0x0fu8
        }
    }

    /// The first `n` nibbles of the key.
    pub open spec fn nibbles(self, n: int) -> Seq<u8> {
        Seq::new(n as nat, |i: int| self.nibble(i))
    }

    /// Hashes the bytes of a key with SHA-256.
    pub fn with_sha256(key: &[u8]) -> (h: KeyHash)
        ensures
            h.0@ == sha256(key@),
            h == key_hash_of(key@),
    {
        let h = KeyHash(sha256_digest(key));
        proof {
            lemma_key_hash_of(key@, h);
        }
        h
    }

    /// Returns bit `i` of the key, counted from the most significant bit.
    pub fn get_bit(&self, i: usize) -> (b: bool)
        requires
            i < 256,
        ensures
            b == self.bit(i as int),
    {
        let shift: u8 = (7 - (i % 8)) as u8;
        (self.0[i / 8] >> shift) & 1u8 == 1u8
    }

    /// Returns nibble `i` of the key.
    pub fn get_nibble(&self, i: usize) -> (n: u8)
        requires
            i < 64,
        ensures
            n == self.nibble(i as int),
            n < 16,
    {
        let byte: u8 = self.0[i / 2];
        if i % 2 == 0 {
            assert(byte >> 4u8 < 16) by (bit_vector);
            byte >> 4u8
        } else {
            assert(byte & 0x0fu8 < 16) by (bit_vector);
            byte & 0x0fu8
        }
    }

    /// Whether the key sorts strictly before `other`, byte by byte.
    pub open spec fn spec_lt(self, other: KeyHash) -> bool {
        exists|i: int|
            0 <= i < 32 && #[trigger] self.0[i] < other.0[i] && forall|j: int|
                0 <= j < i ==> self.0[j] == other.0[j]
    }

    /// Whether the key sorts strictly before `other`, byte by byte.
    pub fn lt(&self, other: &KeyHash) -> (r: bool)
        ensures
            r == self.spec_lt(*other),
    {
        let mut i: usize = 0;
        while i < 32
            invariant
                i <= 32,
                forall|j: int| 0 <= j < i ==> self.0[j] == other.0[j],
            decreases 32 - i,
        {
            if self.0[i] < other.0[i] {
                return true;
            }
            if self.0[i] > other.0[i] {
                return false;
            }
            i += 1;
        }
        false
    }

    /// Whether two key hashes are the same.
    pub fn same(&self, other: &KeyHash) -> (r: bool)
        ensures
            r == (*self == *other),
    {
        bytes32_eq(&self.0, &other.0)
    }
}

/// Every nibble of a key hash is a nibble.
pub proof fn lemma_nibble_bound(key: KeyHash, d: int)
    ensures
        key.nibble(d) < 16,
{
    let b = key.0[d / 2];
    assert(b >> 4u8 < 16 && b & 0x0fu8 < 16) by (bit_vector);
}

/// The order of key hashes is transitive.
pub proof fn lemma_lt_transitive(a: KeyHash, b: KeyHash, c: KeyHash)
    requires
        a.spec_lt(b),
        b.spec_lt(c),
    ensures
        a.spec_lt(c),
{
    let i = choose|i: int|
        0 <= i < 32 && #[trigger] a.0[i] < b.0[i] && forall|j: int| 0 <= j < i ==> a.0[j] == b.0[j];
    let j = choose|j: int|
        0 <= j < 32 && #[trigger] b.0[j] < c.0[j] && forall|q: int| 0 <= q < j ==> b.0[q] == c.0[q];
    let m = if i < j {
        i
    } else {
        j
    };
    assert(a.0[m] < c.0[m]);
    assert(forall|q: int| 0 <= q < m ==> a.0[q] == c.0[q]);
}

/// Of two key hashes at most one sorts before the other.
pub proof fn lemma_lt_asymmetric(a: KeyHash, b: KeyHash)
    requires
        a.spec_lt(b),
    ensures
        !b.spec_lt(a),
{
    if b.spec_lt(a) {
        lemma_lt_transitive(a, b, a);
        lemma_lt_irreflexive(a);
    }
}

/// Two key hashes that differ in their first `n` nibbles have a first
/// nibble in which they differ.
pub proof fn lemma_first_difference(a: KeyHash, b: KeyHash, n: int) -> (e: int)
    requires
        0 <= n,
        a.nibbles(n) != b.nibbles(n),
    ensures
        0 <= e < n,
        a.nibbles(e) == b.nibbles(e),
        a.nibble(e) != b.nibble(e),
    decreases n,
{
    if n == 0 {
        assert(a.nibbles(0) =~= b.nibbles(0));
        0
    } else if a.nibbles(n - 1) == b.nibbles(n - 1) {
        assert(a.nibbles(n) =~= a.nibbles(n - 1).push(a.nibble(n - 1)));
        assert(b.nibbles(n) =~= b.nibbles(n - 1).push(b.nibble(n - 1)));
        n - 1
    } else {
        lemma_first_difference(a, b, n - 1)
    }
}

/// A key hash that leaves the common first `n` nibbles of two others sorts
/// on the same side of both.
pub proof fn lemma_lt_off_path(a: KeyHash, x: KeyHash, y: KeyHash, n: int)
    requires
        0 <= n <= 64,
        x.nibbles(n) == y.nibbles(n),
        a.nibbles(n) != x.nibbles(n),
    ensures
        a.spec_lt(x) == a.spec_lt(y),
        x.spec_lt(a) == y.spec_lt(a),
{
    let e = lemma_first_difference(a, x, n);
    assert(x.nibbles(e) =~= y.nibbles(e)) by {
        assert forall|i: int| 0 <= i < e implies x.nibbles(e)[i] == y.nibbles(e)[i] by {
            assert(x.nibbles(n)[i] == x.nibble(i));
            assert(y.nibbles(n)[i] == y.nibble(i));
            assert(x.nibbles(e)[i] == x.nibble(i));
            assert(y.nibbles(e)[i] == y.nibble(i));
        }
    }
    assert(x.nibble(e) == y.nibble(e)) by {
        assert(x.nibbles(n)[e] == x.nibble(e));
        assert(y.nibbles(n)[e] == y.nibble(e));
    }
    if a.nibble(e) < x.nibble(e) {
        lemma_nibble_order(a, x, e);
        lemma_nibble_order(a, y, e);
        lemma_lt_asymmetric(a, x);
        lemma_lt_asymmetric(a, y);
    } else {
        lemma_nibble_order(x, a, e);
        lemma_nibble_order(y, a, e);
        lemma_lt_asymmetric(x, a);
        lemma_lt_asymmetric(y, a);
    }
}

/// Of two different key hashes one sorts before the other.
pub proof fn lemma_lt_total(a: KeyHash, b: KeyHash)
    requires
        a != b,
    ensures
        a.spec_lt(b) || b.spec_lt(a),
{
    if !a.spec_lt(b) && !b.spec_lt(a) {
        lemma_same_prefix(a, b, 32);
        assert(a.0 =~= b.0);
    }
}

/// Two key hashes of which neither sorts before the other have the same
/// bytes.
proof fn lemma_same_prefix(a: KeyHash, b: KeyHash, n: int)
    requires
        0 <= n <= 32,
        !a.spec_lt(b),
        !b.spec_lt(a),
    ensures
        forall|j: int| 0 <= j < n ==> a.0[j] == b.0[j],
    decreases n,
{
    if n > 0 {
        lemma_same_prefix(a, b, n - 1);
        if a.0[n - 1] < b.0[n - 1] {
            assert(a.spec_lt(b));
        } else if b.0[n - 1] < a.0[n - 1] {
            assert(b.spec_lt(a));
        }
    }
}

/// No key hash sorts before itself.
pub proof fn lemma_lt_irreflexive(a: KeyHash)
    ensures
        !a.spec_lt(a),
{
}

/// Two key hashes with the same nibbles are the same.
pub proof fn lemma_same_nibbles(a: KeyHash, b: KeyHash)
    requires
        a.nibbles(64) == b.nibbles(64),
    ensures
        a == b,
{
    assert forall|i: int| 0 <= i < 32 implies a.0[i] == b.0[i] by {
        let x = a.0[i];
        let y = b.0[i];
        assert(a.nibbles(64)[2 * i] == a.nibble(2 * i));
        assert(b.nibbles(64)[2 * i] == b.nibble(2 * i));
        assert(a.nibbles(64)[2 * i + 1] == a.nibble(2 * i + 1));
        assert(b.nibbles(64)[2 * i + 1] == b.nibble(2 * i + 1));
        assert((2 * i) / 2 == i && (2 * i + 1) / 2 == i);
        assert(x >> 4u8 == y >> 4u8 && x & 0x0fu8 == y & 0x0fu8 ==> x == y) by (bit_vector);
    }
    assert(a.0 =~= b.0);
}

/// Of two key hashes with the same first `d` nibbles, the one with the
/// lesser nibble `d` sorts first.
pub proof fn lemma_nibble_order(a: KeyHash, b: KeyHash, d: int)
    requires
        0 <= d < 64,
        a.nibbles(d) == b.nibbles(d),
        a.nibble(d) < b.nibble(d),
    ensures
        a.spec_lt(b),
{
    let i = d / 2;
    assert forall|j: int| 0 <= j < i implies a.0[j] == b.0[j] by {
        let x = a.0[j];
        let y = b.0[j];
        assert(a.nibbles(d)[2 * j] == a.nibble(2 * j));
        assert(b.nibbles(d)[2 * j] == b.nibble(2 * j));
        assert(a.nibbles(d)[2 * j + 1] == a.nibble(2 * j + 1));
        assert(b.nibbles(d)[2 * j + 1] == b.nibble(2 * j + 1));
        assert((2 * j) / 2 == j && (2 * j + 1) / 2 == j);
        assert(x >> 4u8 == y >> 4u8 && x & 0x0fu8 == y & 0x0fu8 ==> x == y) by (bit_vector);
    }
    let x = a.0[i];
    let y = b.0[i];
    if d % 2 == 0 {
        assert(x >> 4u8 < y >> 4u8 ==> x < y) by (bit_vector);
    } else {
        assert(a.nibbles(d)[d - 1] == a.nibble(d - 1));
        assert(b.nibbles(d)[d - 1] == b.nibble(d - 1));
        assert((d - 1) / 2 == i);
        assert(x >> 4u8 == y >> 4u8 && x & 0x0fu8 < y & 0x0fu8 ==> x < y) by (bit_vector);
    }
    assert(a.0[i] < b.0[i]);
}

impl<'a> From<&'a [u8]> for KeyHash {
    fn from(key: &'a [u8]) -> (h: KeyHash) {
        KeyHash::with_sha256(key)
    }
}

impl<'a> vstd::std_specs::convert::FromSpecImpl<&'a [u8]> for KeyHash {
    open spec fn obeys_from_spec() -> bool {
        true
    }

    open spec fn from_spec(key: &'a [u8]) -> KeyHash {
        key_hash_of(key@)
    }
}

} // verus!
