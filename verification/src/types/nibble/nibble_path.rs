//! Paths of nibbles: the address of a node below the root.
use crate::hash::KeyHash;
use vstd::prelude::*;

verus! {

/// Nibble `i` of a packed byte sequence: the high half of a byte comes first.
pub open spec fn nibble_of(bytes: Seq<u8>, i: int) -> u8 {
    if i % 2 == 0 {
        bytes[i / 2] >> 4u8
    } else {
        bytes[i / 2] & 0x0fu8
    }
}

/// All the nibbles of a byte sequence, two for each byte.
pub open spec fn nibbles_of(bytes: Seq<u8>) -> Seq<u8> {
    Seq::new(2 * bytes.len(), |i: int| nibble_of(bytes, i))
}

/// A sequence of at most 64 nibbles, packed two to a byte. A path of odd
/// length leaves the low half of its last byte zero.
#[derive(Debug, PartialEq, Eq, Hash, PartialOrd, Ord)]
pub struct NibblePath {
    num_nibbles: usize,
    bytes: Vec<u8>,
}

impl View for NibblePath {
    type V = Seq<u8>;

    closed spec fn view(&self) -> Seq<u8> {
        Seq::new(self.num_nibbles as nat, |i: int| nibble_of(self.bytes@, i))
    }
}

impl Clone for NibblePath {
    fn clone(&self) -> (r: Self)
        ensures
            r@ == self@,
    {
        proof {
            use_type_invariant(self);
        }
        let bytes = self.bytes.clone();
        assert(bytes@ =~= self.bytes@);
        NibblePath { num_nibbles: self.num_nibbles, bytes }
    }
}

impl NibblePath {
    #[verifier::type_invariant]
    spec fn inv(self) -> bool {
        &&& self.num_nibbles <= 64
        &&& self.bytes@.len() == (self.num_nibbles + 1) / 2
        &&& self.num_nibbles % 2 == 1 ==> self.bytes@[self.bytes@.len() - 1] & 0x0fu8 == 0
    }

    /// The path of no nibbles: the address of the root.
    pub fn empty() -> (r: Self)
        ensures
            r@ == Seq::<u8>::empty(),
    {
        let r = NibblePath { num_nibbles: 0, bytes: Vec::new() };
        assert(r@ =~= Seq::<u8>::empty());
        r
    }

    /// The path of all the nibbles of `bytes`, an even number.
    pub fn new(bytes: Vec<u8>) -> (r: Self)
        requires
            bytes@.len() <= 32,
        ensures
            r@ == nibbles_of(bytes@),
    {
        let r = NibblePath { num_nibbles: bytes.len() * 2, bytes };
        assert(r@ =~= nibbles_of(bytes@));
        r
    }

    /// The first `n` nibbles of a key hash.
    pub fn from_key_prefix(key: &KeyHash, n: usize) -> (r: Self)
        requires
            n <= 64,
        ensures
            r@ == key.nibbles(n as int),
    {
        let mut r = NibblePath::empty();
        let mut i: usize = 0;
        while i < n
            invariant
                i <= n <= 64,
                r@ == key.nibbles(i as int),
            decreases n - i,
        {
            r.push(key.get_nibble(i));
            i += 1;
            assert(r@ =~= key.nibbles(i as int));
        }
        r
    }

    /// The number of nibbles in the path.
    pub fn num_nibbles(&self) -> (n: usize)
        ensures
            n == self@.len(),
            n <= 64,
            forall|i: int| 0 <= i < self@.len() ==> #[trigger] self@[i] < 16,
    {
        proof {
            use_type_invariant(self);
            assert forall|i: int| 0 <= i < self@.len() implies #[trigger] self@[i] < 16 by {
                let b = self.bytes@[i / 2];
                assert(b >> 4u8 < 16 && b & 0x0fu8 < 16) by (bit_vector);
            }
        }
        self.num_nibbles
    }

    /// Whether the path has no nibbles.
    pub fn is_empty(&self) -> (r: bool)
        ensures
            r == (self@.len() == 0),
    {
        self.num_nibbles == 0
    }

    /// The packed bytes of the path.
    pub fn bytes(&self) -> (r: &Vec<u8>)
        ensures
            self@ == nibbles_of(r@).take(self@.len() as int),
            r@.len() == (self@.len() + 1) / 2,
    {
        proof {
            use_type_invariant(self);
            assert(self@ =~= nibbles_of(self.bytes@).take(self@.len() as int));
        }
        &self.bytes
    }

    /// Returns nibble `i` of the path.
    pub fn get_nibble(&self, i: usize) -> (n: u8)
        requires
            i < self@.len(),
        ensures
            n == self@[i as int],
            n < 16,
    {
        proof {
            use_type_invariant(self);
        }
        let byte: u8 = self.bytes[i / 2];
        assert(byte >> 4u8 < 16 && byte & 0x0fu8 < 16) by (bit_vector);
        if i % 2 == 0 {
            byte >> 4u8
        } else {
            byte & 0x0fu8
        }
    }

    /// Appends a nibble to the path.
    pub fn push(&mut self, nibble: u8)
        requires
            old(self)@.len() < 64,
            nibble < 16,
        ensures
            final(self)@ == old(self)@.push(nibble),
    {
        proof {
            use_type_invariant(&*self);
        }
        let n = self.num_nibbles;
        let mut bytes = self.bytes.clone();
        assert(bytes@ =~= self.bytes@);
        if n % 2 == 0 {
            let b: u8 = nibble << 4u8;
            assert((b >> 4u8) == nibble && b & 0x0fu8 == 0) by (bit_vector)
                requires
                    b == nibble << 4u8,
                    nibble < 16,
            ;
            bytes.push(b);
        } else {
            let last: u8 = bytes[n / 2];
            let b: u8 = last | nibble;
            assert((b >> 4u8) == (last >> 4u8) && b & 0x0fu8 == nibble) by (bit_vector)
                requires
                    b == last | nibble,
                    nibble < 16,
                    last & 0x0fu8 == 0,
            ;
            bytes.set(n / 2, b);
        }
        let ghost before = self@;
        *self = NibblePath { num_nibbles: n + 1, bytes };
        assert(self@ =~= before.push(nibble));
    }

    /// Removes the last nibble of the path and returns it, if there is one.
    pub fn pop(&mut self) -> (r: Option<u8>)
        ensures
            old(self)@.len() == 0 ==> r is None && final(self)@ == old(self)@,
            old(self)@.len() > 0 ==> r == Some(old(self)@.last()) && final(self)@ == old(
                self,
            )@.drop_last(),
    {
        proof {
            use_type_invariant(&*self);
        }
        let n = self.num_nibbles;
        if n == 0 {
            return None;
        }
        let mut bytes = self.bytes.clone();
        assert(bytes@ =~= self.bytes@);
        let last: u8 = bytes[(n - 1) / 2];
        let nibble: u8;
        if n % 2 == 0 {
            let b: u8 = last & 0xf0u8;
            nibble = last & 0x0fu8;
            assert((b >> 4u8) == (last >> 4u8) && b & 0x0fu8 == 0) by (bit_vector)
                requires
                    b == last & 0xf0u8,
            ;
            bytes.set((n - 1) / 2, b);
        } else {
            nibble = last >> 4u8;
            bytes.pop();
        }
        let ghost before = self@;
        *self = NibblePath { num_nibbles: n - 1, bytes };
        assert(self@ =~= before.drop_last());
        Some(nibble)
    }

    /// Whether two paths hold the same nibbles.
    pub fn same(&self, other: &NibblePath) -> (r: bool)
        ensures
            r == (self@ == other@),
    {
        if self.num_nibbles() != other.num_nibbles() {
            return false;
        }
        let n = self.num_nibbles();
        let mut i: usize = 0;
        while i < n
            invariant
                i <= n,
                n == self@.len(),
                n == other@.len(),
                forall|j: int| 0 <= j < i ==> self@[j] == other@[j],
            decreases n - i,
        {
            if self.get_nibble(i) != other.get_nibble(i) {
                return false;
            }
            i += 1;
        }
        assert(self@ =~= other@);
        true
    }

    /// Whether the path holds the first nibbles of `key`.
    pub fn is_prefix_of(&self, key: &KeyHash) -> (r: bool)
        ensures
            r == (self@ == key.nibbles(self@.len() as int)),
    {
        let n = self.num_nibbles();
        let mut i: usize = 0;
        while i < n
            invariant
                i <= n <= 64,
                n == self@.len(),
                forall|j: int| 0 <= j < i ==> self@[j] == key.nibble(j),
            decreases n - i,
        {
            if self.get_nibble(i) != key.get_nibble(i) {
                assert(key.nibbles(n as int)[i as int] == key.nibble(i as int));
                return false;
            }
            i += 1;
        }
        assert(self@ =~= key.nibbles(n as int));
        true
    }
}

} // verus!
