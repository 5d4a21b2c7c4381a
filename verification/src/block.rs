//! A block of the chain: an index, an opaque payload, a link to the previous
//! block's hash, its own hash, and the mining nonce.

use vstd::prelude::*;
use vstd::utf8::encode_utf8;

use crate::crypto::{hex_encode, hex_of, sha256, sha256_of};
use crate::strutil::{push_u64_be, u64_be_bytes};

verus! {

/// The all-zero 32-byte hash, used as the link of a genesis block and as the
/// placeholder hash of a freshly created block.
pub open spec fn zero32() -> Seq<u8> {
    Seq::new(32, |i: int| 0u8)
}

/// The all-zero 32-byte array value.
pub open spec fn zero32_arr() -> [u8; 32] {
    vstd::array::spec_array_fill_for_copy_type::<u8, 32>(0u8)
}

/// A block in the blockchain.
#[derive(Debug)]
pub struct Block {
    /// The ID of the block; equals its position in the chain once sealed.
    pub id: u64,
    /// The payload stored in the block.
    pub data: String,
    /// The hash of the block.
    pub hash: [u8; 32],
    /// The hash of the previous block in the chain.
    pub prev: [u8; 32],
    /// The nonce used to mine the block.
    pub nonce: u64,
}

impl Block {
    /// The canonical hash input: the ID as eight big-endian bytes, the
    /// payload's UTF-8 bytes, the previous hash, and the nonce as eight
    /// big-endian bytes.
    pub open spec fn hash_input(self) -> Seq<u8> {
        u64_be_bytes(self.id) + encode_utf8(self.data@) + self.prev@ + u64_be_bytes(self.nonce)
    }

    /// The hash the block's fields call for.
    pub open spec fn spec_calc_hash(self) -> Seq<u8> {
        sha256_of(self.hash_input())
    }

    /// The stored hash matches the block's fields.
    pub open spec fn hash_valid(self) -> bool {
        self.hash@ == self.spec_calc_hash()
    }

    /// Structural equality over all five fields.
    pub open spec fn equal_spec(self, other: Block) -> bool {
        &&& self.id == other.id
        &&& self.data@ == other.data@
        &&& self.hash@ == other.hash@
        &&& self.prev@ == other.prev@
        &&& self.nonce == other.nonce
    }

    /// Equality restricted to ID, payload and previous-hash link: two blocks
    /// compete for the same slot even if their nonces differ.
    pub open spec fn preequal_spec(self, other: Block) -> bool {
        &&& self.id == other.id
        &&& self.data@ == other.data@
        &&& self.prev@ == other.prev@
    }

    /// Creates a new block with the given ID and payload and zeroed hash,
    /// link and nonce.
    pub fn new(id: u64, data: String) -> (r: Self)
        ensures
            r.id == id,
            r.data@ == data@,
            r.hash@ == zero32(),
            r.prev@ == zero32(),
            r.nonce == 0,
    {
        broadcast use vstd::array::group_array_axioms;

        let r = Self { id, data, hash: [0u8; 32], prev: [0u8; 32], nonce: 0 };
        assert(r.hash@ =~= zero32());
        assert(r.prev@ =~= zero32());
        r
    }

    /// Computes the SHA-256 hash the block's fields call for.
    pub fn calc_hash(&self) -> (r: [u8; 32])
        ensures
            r@ == self.spec_calc_hash(),
    {
        let mut input: Vec<u8> = Vec::new();
        push_u64_be(&mut input, self.id);
        push_bytes(&mut input, self.data.as_str().as_bytes());
        push_bytes(&mut input, self.prev.as_slice());
        push_u64_be(&mut input, self.nonce);
        assert(input@ =~= self.hash_input());
        sha256(input.as_slice())
    }

    /// Stores the computed hash into the `hash` field; the other fields stay
    /// as they are.
    pub fn update_hash(&mut self)
        ensures
            final(self).id == old(self).id,
            final(self).data == old(self).data,
            final(self).prev == old(self).prev,
            final(self).nonce == old(self).nonce,
            final(self).hash@ == old(self).spec_calc_hash(),
            final(self).hash_valid(),
    {
        self.hash = self.calc_hash();
    }

    /// Whether the stored hash matches the block's fields.
    pub fn validate_hash(&self) -> (r: bool)
        ensures
            r == self.hash_valid(),
    {
        let computed = self.calc_hash();
        bytes32_eq(&self.hash, &computed)
    }

    /// The block's hash as a lowercase hex string.
    pub fn string_hash(&self) -> (r: String)
        ensures
            r@ == hex_of(self.hash@),
    {
        hex_encode(self.hash.as_slice())
    }

    /// The previous block's hash as a lowercase hex string.
    pub fn string_prev(&self) -> (r: String)
        ensures
            r@ == hex_of(self.prev@),
    {
        hex_encode(self.prev.as_slice())
    }

    /// Full structural equality over all five fields.
    pub fn equals(&self, other: &Self) -> (r: bool)
        ensures
            r == self.equal_spec(*other),
    {
        self.id == other.id && self.data == other.data && bytes32_eq(&self.hash, &other.hash)
            && bytes32_eq(&self.prev, &other.prev) && self.nonce == other.nonce
    }

    /// Equality over ID, payload and previous-hash link only.
    pub fn preequals(&self, other: &Self) -> (r: bool)
        ensures
            r == self.preequal_spec(*other),
    {
        self.id == other.id && self.data == other.data && bytes32_eq(&self.prev, &other.prev)
    }
}

impl Clone for Block {
    /// A clone is equal to the original in every field.
    fn clone(&self) -> (r: Self)
        ensures
            r == *self,
    {
        Block {
            id: self.id,
            data: self.data.clone(),
            hash: self.hash,
            prev: self.prev,
            nonce: self.nonce,
        }
    }
}

/// Equality of two 32-byte hashes.
pub fn bytes32_eq(a: &[u8; 32], b: &[u8; 32]) -> (r: bool)
    ensures
        r == (a@ == b@),
{
    broadcast use vstd::array::group_array_axioms;

    let mut i: usize = 0;
    while i < 32
        invariant
            i <= 32,
            forall|j: int| 0 <= j < i ==> a@[j] == b@[j],
        decreases 32 - i,
    {
        if a[i] != b[i] {
            return false;
        }
        i += 1;
    }
    assert(a@ =~= b@);
    true
}

/// Law: `update_hash` is idempotent. If `next` is `prev` after one call of
/// `update_hash` (same ID, payload, link and nonce, and the hash freshly
/// computed), and `prev` already carried its computed hash, then the call
/// left the hash unchanged and the block still validates.
pub proof fn lemma_update_hash_idempotent(prev: Block, next: Block)
    requires
        prev.hash_valid(),
        next.id == prev.id,
        next.data@ == prev.data@,
        next.prev@ == prev.prev@,
        next.nonce == prev.nonce,
        next.hash@ == prev.spec_calc_hash(),
    ensures
        next.hash@ == prev.hash@,
        next.hash_valid(),
{
    assert(next.hash_input() == prev.hash_input());
}

/// Lexicographic order on byte sequences: the usual tie-break between two
/// competing proofs of work.
pub open spec fn bytes_lt(a: Seq<u8>, b: Seq<u8>) -> bool
    decreases a.len(),
{
    if b.len() == 0 {
        false
    } else if a.len() == 0 {
        true
    } else if a.first() < b.first() {
        true
    } else if a.first() > b.first() {
        false
    } else {
        bytes_lt(a.drop_first(), b.drop_first())
    }
}

/// Lexicographic comparison of two 32-byte hashes.
pub fn bytes32_lt(a: &[u8; 32], b: &[u8; 32]) -> (r: bool)
    ensures
        r == bytes_lt(a@, b@),
{
    broadcast use vstd::array::group_array_axioms;

    assert(a@.skip(0) =~= a@);
    assert(b@.skip(0) =~= b@);
    let mut i: usize = 0;
    while i < 32
        invariant
            i <= 32,
            bytes_lt(a@, b@) == bytes_lt(a@.skip(i as int), b@.skip(i as int)),
        decreases 32 - i,
    {
        if a[i] < b[i] {
            assert(bytes_lt(a@.skip(i as int), b@.skip(i as int)));
            return true;
        }
        if a[i] > b[i] {
            assert(!bytes_lt(a@.skip(i as int), b@.skip(i as int)));
            return false;
        }
        assert(a@.skip(i as int).drop_first() =~= a@.skip(i + 1));
        assert(b@.skip(i as int).drop_first() =~= b@.skip(i + 1));
        i += 1;
    }
    assert(a@.skip(32) =~= Seq::<u8>::empty());
    assert(b@.skip(32) =~= Seq::<u8>::empty());
    false
}

/// Appends a byte slice to `out`.
fn push_bytes(out: &mut Vec<u8>, bytes: &[u8])
    ensures
        final(out)@ == old(out)@ + bytes@,
{
    let n = bytes.len();
    let mut i: usize = 0;
    while i < n
        invariant
            i <= n,
            n == bytes@.len(),
            out@ == old(out)@ + bytes@.take(i as int),
        decreases n - i,
    {
        out.push(bytes[i]);
        assert(out@ =~= old(out)@ + bytes@.take(i + 1));
        i += 1;
    }
    assert(out@ =~= old(out)@ + bytes@);
}

} // verus!
